//! The search engine: an exhaustive AND/OR game-tree search over the
//! remaining deal, with an OR short-circuit, trick-boundary scoring,
//! rotation reversal, and a one-shot resolver for the forced final trick.

use vstd::prelude::*;
use vstd::pervasive::VecAdditionalExecFns;
use vstd::arithmetic::div_mod::{lemma_mod_multiples_vanish, lemma_add_mod_noop, lemma_mod_twice,
    lemma_small_mod, lemma_mod_bound};
use crate::cards::{
    Cards, Suit, PlayerIndex, CardIndex, Declaration, N_CARDS, JOKERS, ALL_SUITS, ALL_JOKERS,
    ALL_PICTURES,
    single_card, valid_hand, is_suit, canonical_of, rank_of,
};
use crate::counting::{card_count, lemma_card_count_remove, lemma_card_count_one,
    lemma_card_count_zero, lemma_card_count_or_le, count_cards};
use crate::moves::{spec_available_cards, available_cards, lemma_available_cards_nonempty,
    lemma_candidate_card};
use crate::trick::{or_fold, spec_trick_taker, spec_is_first_trick, trick_taker, is_first_trick};
use crate::judge::{Camp, spec_judge, spec_opposite_party, judge, lemma_judge_settled};
use crate::cards::{spec_reversing_jacks, reversing_jacks};

verus! {

/// The result of a search: the forced winner, the principal variation in
/// leaf-to-root order, the count of visited leaves, and an upper bound of
/// the proof number of the verdict. The two counters are diagnostics; they
/// saturate at the largest `u64` rather than wrap on a search too large for
/// the counter.
pub struct SearchOutcome {
    pub camp: Camp,
    pub variation: Vec<Cards>,
    pub n_leaves: u64,
    pub bound: u64,
}

/// The seat that plays `k` steps after `turn` under the given rotation.
pub open spec fn player_at(turn: int, rotation: int, n: int, k: int) -> int {
    (turn + k * rotation) % n
}

/// Hand sizes fit the count of cards still to be played: with `r` plays left
/// in the open trick, the next `r` seats in turn order hold one card more
/// than the rest.
pub open spec fn counts_ok(hands: Seq<Cards>, turn: int, rotation: int, n_remaining: int) -> bool {
    let n = hands.len() as int;
    let q = n_remaining / n;
    let r = n_remaining % n;
    if r == 0 {
        forall|p: int| 0 <= p < n ==> card_count(hands[p]) == q
    } else {
        forall|k: int|
            0 <= k < n ==> card_count(hands[player_at(turn, rotation, n, k)]) == q + if k < r {
                1int
            } else {
                0int
            }
    }
}

/// One past the last variation slot that holds a played but still unscored
/// card: the open trick, or the just-completed trick a boundary call scores.
pub open spec fn pend_end(n_remaining: int, n: int, len: int) -> int {
    let r = n_remaining % n;
    if r > 0 {
        n_remaining + (n - r)
    } else if n_remaining < len {
        n_remaining + n
    } else {
        n_remaining
    }
}

/// Every variation slot of the range holds a single card.
pub open spec fn window_ok(variation: Seq<Cards>, lo: int, hi: int) -> bool {
    forall|i: int| lo <= i < hi ==> single_card(variation[i])
}

/// The picture points a card set carries.
pub open spec fn pics(cards: Cards) -> nat {
    card_count(cards & ALL_PICTURES)
}

/// The picture points over a range of variation slots.
pub open spec fn pics_in(variation: Seq<Cards>, lo: int, hi: int) -> nat
    decreases hi - lo,
{
    if lo >= hi {
        0
    } else {
        pics(variation[lo]) + pics_in(variation, lo + 1, hi)
    }
}

/// The picture points still held in hands, from seat `from` on.
pub open spec fn hands_pics(hands: Seq<Cards>, from: int) -> nat
    decreases hands.len() - from,
{
    if from < 0 || from >= hands.len() {
        0
    } else {
        pics(hands[from]) + hands_pics(hands, from + 1)
    }
}

/// The scored totals and the unscored picture cards never exceed the 20
/// points of the deck.
pub open spec fn points_ok(contract: int, declarer: int, defender: int, hands: Seq<Cards>,
    variation: Seq<Cards>, n_remaining: int) -> bool {
    declarer + defender + hands_pics(hands, 0) + pics_in(variation, n_remaining, pend_end(
        n_remaining, hands.len() as int, variation.len() as int)) <= 20
}

pub open spec fn valid_hands(hands: Seq<Cards>) -> bool {
    forall|p: int| 0 <= p < hands.len() ==> valid_hand(hands[p])
}

/// What a call into the search engine requires of a position. Beyond the
/// shape of the deal (a real suit as trump, a contract within the deck's 20
/// points, hand sizes matching the cards still to be played, single cards in
/// the unscored variation slots, and the scored totals plus unscored picture
/// cards within 20), it asks that the forced final trick be reached through
/// the terminal-trick resolver: at least one full trick of cards remains,
/// and a position of exactly one trick shows the previously completed trick
/// in the buffer. The solver's guarantee that every branch ends in a settled
/// verdict rests on the deal's full point pool, which this model carries
/// only as an upper bound; a position already inside the final trick is
/// therefore left out.
pub open spec fn search_pre(hands: Seq<Cards>, turn: int, rotation: int, variation: Seq<Cards>,
    n_remaining: int, trump: Suit, contract: int, declarer: int, defender: int) -> bool {
    let n = hands.len() as int;
    &&& 2 <= n <= 50
    &&& 0 <= turn < n
    &&& 1 <= rotation < n
    &&& (rotation == 1 || rotation + 1 == n)
    &&& is_suit(trump)
    &&& 0 <= contract <= 20
    &&& 0 <= declarer
    &&& 0 <= defender
    &&& (variation.len() as int) % n == 0
    &&& n <= n_remaining <= variation.len()
    &&& (n_remaining == n ==> n_remaining < variation.len())
    &&& valid_hands(hands)
    &&& counts_ok(hands, turn, rotation, n_remaining)
    &&& window_ok(variation, n_remaining, pend_end(n_remaining, n, variation.len() as int))
    &&& points_ok(contract, declarer, defender, hands, variation, n_remaining)
}

/// The forced final trick read off the sole remaining cards, in the reverse
/// play order the evaluator expects.
pub open spec fn last_trick_seq(hands: Seq<Cards>, turn: int, rotation: int) -> Seq<Cards> {
    let n = hands.len() as int;
    Seq::new(hands.len(), |k: int| hands[(turn + (k + 1) * (n - rotation)) % n])
}

/// The verdict of the forced final trick: its taker's coalition receives
/// every point not yet scored.
pub open spec fn last_trick_camp(hands: Seq<Cards>, napoleon: int, adjutant: int, turn: int,
    rotation: int, trump: Suit, contract: int, declarer: int, defender: int) -> Camp {
    let n = hands.len() as int;
    let pv = last_trick_seq(hands, turn, rotation);
    let taker_turn = (turn + spec_trick_taker(pv, trump, false) * rotation) % n;
    if taker_turn == napoleon || taker_turn == adjutant {
        spec_judge(contract, 20 - defender, defender)
    } else {
        spec_judge(contract, declarer, 20 - declarer)
    }
}


/// Scoring a completed trick at a boundary: the taker's seat and the two
/// coalition totals after the trick's picture points go to the taker's side.
pub open spec fn boundary_state(hands: Seq<Cards>, napoleon: int, adjutant: int, turn: int,
    rotation: int, variation: Seq<Cards>, n_remaining: int, trump: Suit, contract: int,
    declarer: int, defender: int) -> (int, int, int) {
    let n = hands.len() as int;
    let trick = variation.subrange(n_remaining, n_remaining + n);
    let field = or_fold(trick);
    let n_pictures = card_count(field & ALL_PICTURES) as int;
    let taker_turn = (turn + spec_trick_taker(trick, trump, spec_is_first_trick(n_remaining, n))
        * rotation) % n;
    let to_declarer = taker_turn == napoleon || taker_turn == adjutant;
    (taker_turn, if to_declarer { declarer + n_pictures } else { declarer }, if to_declarer {
        defender
    } else {
        defender + n_pictures
    })
}

/// The verdict right after a completed trick at a boundary is scored.
pub open spec fn boundary_verdict(hands: Seq<Cards>, napoleon: int, adjutant: int, turn: int,
    rotation: int, variation: Seq<Cards>, n_remaining: int, trump: Suit, contract: int,
    declarer: int, defender: int) -> Camp {
    let state = boundary_state(hands, napoleon, adjutant, turn, rotation, variation, n_remaining,
        trump, contract, declarer, defender);
    spec_judge(contract, state.1, state.2)
}

/// The rotation after a completed trick: reversed exactly when the trick
/// holds one of the two reversing jacks alone.
pub open spec fn boundary_rotation(hands: Seq<Cards>, rotation: int, variation: Seq<Cards>,
    n_remaining: int, trump: Suit) -> int {
    let n = hands.len() as int;
    let field = or_fold(variation.subrange(n_remaining, n_remaining + n));
    if card_count(field & spec_reversing_jacks(trump)) == 1 {
        n - rotation
    } else {
        rotation
    }
}

/// The game value of a position: at a trick boundary the completed trick is
/// scored and judged first; an exact final trick goes to the resolver; any
/// other position expands the mover's legal candidates.
pub open spec fn solve_camp(hands: Seq<Cards>, napoleon: int, adjutant: int, turn: int,
    rotation: int, variation: Seq<Cards>, n_remaining: int, trump: Suit, contract: int,
    declarer: int, defender: int) -> Camp
    decreases n_remaining, 3int, 0int,
{
    let n = hands.len() as int;
    let r = n_remaining % n;
    if r == 0 && n_remaining < variation.len() {
        let trick = variation.subrange(n_remaining, n_remaining + n);
        let field = or_fold(trick);
        let n_pictures = card_count(field & ALL_PICTURES) as int;
        let taker_turn = (turn + spec_trick_taker(trick, trump, spec_is_first_trick(n_remaining,
            n)) * rotation) % n;
        let to_declarer = taker_turn == napoleon || taker_turn == adjutant;
        let declarer2 = if to_declarer { declarer + n_pictures } else { declarer };
        let defender2 = if to_declarer { defender } else { defender + n_pictures };
        let winner = spec_judge(contract, declarer2, defender2);
        if winner != Camp::UNSETTLED {
            winner
        } else {
            let rotation2 = if card_count(field & spec_reversing_jacks(trump)) == 1 {
                n - rotation
            } else {
                rotation
            };
            if n_remaining == n {
                last_trick_camp(hands, napoleon, adjutant, taker_turn, rotation2, trump,
                    contract, declarer2, defender2)
            } else {
                interior_camp(hands, napoleon, adjutant, taker_turn, rotation2, variation,
                    n_remaining, trump, contract, declarer2, defender2)
            }
        }
    } else {
        interior_camp(hands, napoleon, adjutant, turn, rotation, variation, n_remaining, trump,
            contract, declarer, defender)
    }
}

/// The game value of one candidate play: the presented card is recorded, its
/// canonical identity leaves the mover's hand, and the turn advances.
pub open spec fn child_camp(hands: Seq<Cards>, napoleon: int, adjutant: int, turn: int,
    rotation: int, variation: Seq<Cards>, n_remaining: int, trump: Suit, contract: int,
    declarer: int, defender: int, card: Cards) -> Camp
    decreases n_remaining, 0int, 0int,
{
    if n_remaining < 1 {
        Camp::UNSETTLED
    } else {
        let n = hands.len() as int;
        solve_camp(hands.update(turn, hands[turn] ^ canonical_of(card)), napoleon, adjutant,
            (turn + rotation) % n, rotation, variation.update(n_remaining - 1, card),
            n_remaining - 1, trump, contract, declarer, defender)
    }
}

/// The game value of an interior node: the mover's camp wins exactly when
/// some legal candidate keeps winning for it; otherwise the other camp has
/// refuted every try.
pub open spec fn interior_camp(hands: Seq<Cards>, napoleon: int, adjutant: int, turn: int,
    rotation: int, variation: Seq<Cards>, n_remaining: int, trump: Suit, contract: int,
    declarer: int, defender: int) -> Camp
    decreases n_remaining, 2int, 0int,
{
    if n_remaining < 1 {
        Camp::UNSETTLED
    } else {
        let n = hands.len() as int;
        let belonging = if turn == napoleon || turn == adjutant {
            Camp::NAPOLEONIC
        } else {
            Camp::ALLIED
        };
        let choice = spec_available_cards(hands[turn], spec_lead(variation, n_remaining, n));
        if winning_in(hands, napoleon, adjutant, turn, rotation, variation, n_remaining, trump,
            contract, declarer, defender, choice) {
            belonging
        } else {
            spec_opposite_party(belonging)
        }
    }
}

/// The lead card the mover must answer: none when a fresh trick starts.
pub open spec fn spec_lead(variation: Seq<Cards>, n_remaining: int, n: int) -> Cards {
    let r = n_remaining % n;
    if r == 0 {
        0u64
    } else {
        variation[n_remaining - r + n - 1]
    }
}

/// Whether some candidate of the set, tried in ascending card-bit order,
/// wins for the mover's own camp.
pub open spec fn winning_in(hands: Seq<Cards>, napoleon: int, adjutant: int, turn: int,
    rotation: int, variation: Seq<Cards>, n_remaining: int, trump: Suit, contract: int,
    declarer: int, defender: int, choice: Cards) -> bool
    decreases n_remaining, 1int, choice,
        via winning_in_decreases_check
{
    if n_remaining < 1 || choice == 0 {
        false
    } else {
        let belonging = if turn == napoleon || turn == adjutant {
            Camp::NAPOLEONIC
        } else {
            Camp::ALLIED
        };
        let card = choice & !((choice - 1) as u64);
        child_camp(hands, napoleon, adjutant, turn, rotation, variation, n_remaining, trump,
            contract, declarer, defender, card) == belonging || winning_in(hands, napoleon,
            adjutant, turn, rotation, variation, n_remaining, trump, contract, declarer,
            defender, choice ^ card)
    }
}

pub fn solve_last_trick(hands: &Vec<Cards>, napoleon: PlayerIndex, adjutant: PlayerIndex,
    turn: PlayerIndex, rotation: PlayerIndex, trump: Suit, contract: Declaration,
    declarer: Declaration, defender: Declaration) -> (outcome: SearchOutcome)
    requires
        2 <= hands@.len() <= 50,
        turn < hands@.len(),
        1 <= rotation < hands@.len(),
        is_suit(trump),
        contract <= 20,
        declarer <= 20,
        defender <= 20,
        forall|p: int| 0 <= p < hands@.len() ==> card_count(hands@[p]) == 1,
    ensures
        outcome.camp == last_trick_camp(hands@, napoleon as int, adjutant as int, turn as int,
            rotation as int, trump, contract as int, declarer as int, defender as int),
        outcome.camp != Camp::UNSETTLED,
        outcome.n_leaves == 1,
        outcome.bound == 1,
        outcome.variation@ == last_trick_seq(hands@, turn as int, rotation as int),
{
    let n_players = hands.len();
    let ghost n = n_players as int;
    let ghost d = n - rotation;
    let mut pv: Vec<Cards> = Vec::with_capacity(N_CARDS);
    let mut t = turn;
    let mut i: usize = 0;
    proof {
        lemma_small_mod(turn as nat, n as nat);
        assert((0int) * d == 0);
    }
    while i < n_players
        invariant
            n == hands@.len(),
            2 <= n <= 50,
            d == n - rotation,
            1 <= rotation < n,
            0 <= i <= n_players,
            n_players == n,
            t < n_players,
            t as int == (turn as int + i * d) % n,
            turn < n_players,
            pv@.len() == i,
            forall|k: int|
                0 <= k < i ==> pv@[k] == hands@[(turn as int + (k + 1) * d) % n],
        decreases n_players - i,
    {
        proof {
            lemma_step_once(turn as int + (i as int) * d, d, n);
            assert((i as int) * d + d == (i as int + 1) * d) by (nonlinear_arith);
        }
        t = (t + n_players - rotation) % n_players;
        pv.push(hands[t]);
        i = i + 1;
    }
    proof {
        assert((i as int) * d == n * d) by (nonlinear_arith)
            requires
                i as int == n,
        ;
        lemma_mod_multiples_vanish(d, turn as int, n);
        lemma_small_mod(turn as nat, n as nat);
        assert(n * d == (i as int) * d) by (nonlinear_arith)
            requires
                i as int == n,
        ;
        assert(t == turn);
        assert(pv@ =~= last_trick_seq(hands@, turn as int, rotation as int));
        assert forall|k: int| 0 <= k < pv@.len() implies single_card(pv@[k]) by {
            let s = (turn as int + (k + 1) * d) % n;
            lemma_card_count_one(hands@[s]);
        }
    }
    let taker = trick_taker(&pv, trump, false);
    proof {
        assert(taker * rotation <= 2500) by (nonlinear_arith)
            requires
                0 <= taker <= 50 && 0 <= rotation <= 50,
        ;
    }
    let t2 = (t + taker * rotation) % n_players;
    let result = if t2 == napoleon || t2 == adjutant {
        proof {
            lemma_judge_settled(contract as int, 20 - defender as int, defender as int);
        }
        judge(contract, 20 - defender, defender)
    } else {
        proof {
            lemma_judge_settled(contract as int, declarer as int, 20 - declarer as int);
        }
        judge(contract, declarer, 20 - declarer)
    };
    SearchOutcome { camp: result, variation: pv, n_leaves: 1, bound: 1 }
}


/// Playing one legal candidate turns a valid interior position into a valid
/// position one card smaller: the search's recursive call meets its own
/// precondition, and the unscored window keeps its end.
proof fn lemma_child_position(hands: Seq<Cards>, turn: int, rotation: int,
    variation_now: Seq<Cards>, v0: Seq<Cards>, n_remaining: int, trump: Suit, contract: int,
    declarer: int, defender: int, w: int, card: Cards)
    requires
        2 <= hands.len() <= 50,
        0 <= turn < hands.len(),
        1 <= rotation < hands.len(),
        rotation == 1 || rotation + 1 == hands.len(),
        is_suit(trump),
        0 <= contract <= 20,
        0 <= declarer,
        0 <= defender,
        (v0.len() as int) % (hands.len() as int) == 0,
        hands.len() < n_remaining <= v0.len(),
        valid_hands(hands),
        counts_ok(hands, turn, rotation, n_remaining),
        window_ok(v0, n_remaining, w),
        declarer + defender + hands_pics(hands, 0) + pics_in(v0, n_remaining, w) <= 20,
        w == if n_remaining % (hands.len() as int) > 0 {
            pend_end(n_remaining, hands.len() as int, v0.len() as int)
        } else {
            n_remaining
        },
        w <= v0.len(),
        single_card(card),
        single_card(canonical_of(card)),
        canonical_of(card) & hands[turn] == canonical_of(card),
        valid_hand(canonical_of(card)),
        canonical_of(card) & ALL_PICTURES == card & ALL_PICTURES,
        variation_now.len() == v0.len(),
        forall|i: int| n_remaining <= i < v0.len() ==> variation_now[i] == v0[i],
        variation_now[n_remaining - 1] == card,
    ensures
        search_pre(hands.update(turn, (hands[turn] ^ canonical_of(card)) as u64), (turn
            + rotation) % (hands.len() as int), rotation, variation_now, n_remaining - 1, trump,
            contract, declarer, defender),
        pend_end(n_remaining - 1, hands.len() as int, v0.len() as int) == w,
        pics_in(variation_now, n_remaining - 1, w) == pics(canonical_of(card)) + pics_in(v0,
            n_remaining, w),
{
    let n = hands.len() as int;
    let g_len = v0.len() as int;
    let card_original = canonical_of(card);
    let hands2 = hands.update(turn, (hands[turn] ^ card_original) as u64);
    lemma_counts_after_play(hands, turn, rotation, n_remaining, card_original);
    lemma_mod_bound(turn + rotation, n);
    lemma_decrement_mod(n_remaining, n);
    assert forall|p2: int| 0 <= p2 < n implies valid_hand(hands2[p2]) by {
        if p2 == turn {
            let h = hands[turn];
            assert((h ^ card_original) & crate::cards::HIGH_JOKERS == 0) by (bit_vector)
                requires
                    h & crate::cards::HIGH_JOKERS == 0 && card_original
                        & crate::cards::HIGH_JOKERS == 0,
            ;
        }
    }
    lemma_hands_pics_update(hands, turn, (hands[turn] ^ card_original) as u64, 0);
    lemma_pics_remove(hands[turn], card_original);
    let w2 = pend_end(n_remaining - 1, n, g_len);
    assert(w2 == w);
    lemma_pics_in_frame(variation_now, v0, n_remaining, w);
    assert(pics_in(variation_now, n_remaining - 1, w2) == pics(card) + pics_in(variation_now,
        n_remaining, w2));
    assert forall|i: int| n_remaining - 1 <= i < w2 implies single_card(variation_now[i]) by {
        if i == n_remaining - 1 {
            assert(variation_now[i] == card);
        } else {
            assert(variation_now[i] == v0[i]);
            assert(single_card(v0[i]));
        }
    }
    assert(window_ok(variation_now, n_remaining - 1, w2));
    if n_remaining - 1 == n {
        lemma_mod_multiples_vanish(1, 0, n);
        lemma_small_mod(0nat, n as nat);
        assert(n % n == 0);
        lemma_multiple_gap(n, g_len, n);
    }
    assert(search_pre(hands2, (turn + rotation) % n, rotation, variation_now, n_remaining - 1,
        trump, contract, declarer, defender));
}


/// Whether `line` is, in leaf-to-root order, exactly the plays of one path
/// from this position to a terminal judgment: empty at a settled boundary,
/// the forced trick at the final trick, and otherwise one legal move (its
/// last element) followed by a terminal line of the child position.
pub open spec fn is_terminal_line(hands: Seq<Cards>, napoleon: int, adjutant: int, turn: int,
    rotation: int, variation: Seq<Cards>, n_remaining: int, trump: Suit, contract: int,
    declarer: int, defender: int, line: Seq<Cards>) -> bool
    decreases n_remaining, 1int,
{
    let n = hands.len() as int;
    let r = n_remaining % n;
    if r == 0 && n_remaining < variation.len() {
        let state = boundary_state(hands, napoleon, adjutant, turn, rotation, variation,
            n_remaining, trump, contract, declarer, defender);
        let winner = spec_judge(contract, state.1, state.2);
        if winner != Camp::UNSETTLED {
            line.len() == 0
        } else {
            let rotation2 = boundary_rotation(hands, rotation, variation, n_remaining, trump);
            if n_remaining == n {
                line == last_trick_seq(hands, state.0, rotation2)
            } else {
                interior_line(hands, napoleon, adjutant, state.0, rotation2, variation,
                    n_remaining, trump, contract, state.1, state.2, line)
            }
        }
    } else {
        interior_line(hands, napoleon, adjutant, turn, rotation, variation, n_remaining, trump,
            contract, declarer, defender, line)
    }
}

/// One legal move of the mover, then a terminal line of the position it
/// leaves behind.
pub open spec fn interior_line(hands: Seq<Cards>, napoleon: int, adjutant: int, turn: int,
    rotation: int, variation: Seq<Cards>, n_remaining: int, trump: Suit, contract: int,
    declarer: int, defender: int, line: Seq<Cards>) -> bool
    decreases n_remaining, 0int,
{
    if n_remaining < 1 {
        false
    } else {
        let n = hands.len() as int;
        let choice = spec_available_cards(hands[turn], spec_lead(variation, n_remaining, n));
        line.len() >= 1 && line.last() & choice == line.last() && line.last() != 0
            && is_terminal_line(hands.update(turn, hands[turn] ^ canonical_of(line.last())),
            napoleon, adjutant, (turn + rotation) % n, rotation, variation.update(n_remaining - 1,
            line.last()), n_remaining - 1, trump, contract, declarer, defender, line.drop_last())
    }
}

proof fn lemma_terminal_line_frame(hands: Seq<Cards>, napoleon: int, adjutant: int, turn: int,
    rotation: int, v1: Seq<Cards>, v2: Seq<Cards>, n_remaining: int, trump: Suit, contract: int,
    declarer: int, defender: int, line: Seq<Cards>)
    requires
        2 <= hands.len(),
        0 <= turn < hands.len(),
        v1.len() == v2.len(),
        (v1.len() as int) % (hands.len() as int) == 0,
        0 <= n_remaining <= v1.len(),
        forall|i: int| n_remaining <= i < v1.len() ==> v1[i] == v2[i],
    ensures
        is_terminal_line(hands, napoleon, adjutant, turn, rotation, v1, n_remaining, trump,
            contract, declarer, defender, line) == is_terminal_line(hands, napoleon, adjutant,
            turn, rotation, v2, n_remaining, trump, contract, declarer, defender, line),
    decreases n_remaining, 1int,
{
    let n = hands.len() as int;
    let r = n_remaining % n;
    if r == 0 && n_remaining < v1.len() {
        lemma_multiple_gap(n_remaining, v1.len() as int, n);
        assert(v1.subrange(n_remaining, n_remaining + n) =~= v2.subrange(n_remaining, n_remaining
            + n));
        let state = boundary_state(hands, napoleon, adjutant, turn, rotation, v1, n_remaining,
            trump, contract, declarer, defender);
        let winner = spec_judge(contract, state.1, state.2);
        if winner == Camp::UNSETTLED && n_remaining != n {
            lemma_mod_bound(turn + spec_trick_taker(v1.subrange(n_remaining, n_remaining + n),
                trump, spec_is_first_trick(n_remaining, n)) * rotation, n);
            lemma_interior_line_frame(hands, napoleon, adjutant, state.0, boundary_rotation(
                hands, rotation, v1, n_remaining, trump), v1, v2, n_remaining, trump, contract,
                state.1, state.2, line);
        }
    } else {
        lemma_interior_line_frame(hands, napoleon, adjutant, turn, rotation, v1, v2, n_remaining,
            trump, contract, declarer, defender, line);
    }
}

proof fn lemma_interior_line_frame(hands: Seq<Cards>, napoleon: int, adjutant: int, turn: int,
    rotation: int, v1: Seq<Cards>, v2: Seq<Cards>, n_remaining: int, trump: Suit, contract: int,
    declarer: int, defender: int, line: Seq<Cards>)
    requires
        2 <= hands.len(),
        0 <= turn < hands.len(),
        v1.len() == v2.len(),
        (v1.len() as int) % (hands.len() as int) == 0,
        0 <= n_remaining <= v1.len(),
        forall|i: int| n_remaining <= i < v1.len() ==> v1[i] == v2[i],
    ensures
        interior_line(hands, napoleon, adjutant, turn, rotation, v1, n_remaining, trump,
            contract, declarer, defender, line) == interior_line(hands, napoleon, adjutant, turn,
            rotation, v2, n_remaining, trump, contract, declarer, defender, line),
    decreases n_remaining, 0int,
{
    let n = hands.len() as int;
    if n_remaining >= 1 && line.len() >= 1 {
        let r = n_remaining % n;
        lemma_mod_bound(n_remaining, n);
        if r > 0 {
            vstd::arithmetic::div_mod::lemma_fundamental_div_mod(n_remaining, n);
            let base = n_remaining - r;
            assert(base == n * (n_remaining / n));
            lemma_mod_multiples_vanish(n_remaining / n, 0, n);
            lemma_small_mod(0nat, n as nat);
            assert(base % n == 0);
            lemma_multiple_gap(base, v1.len() as int, n);
            assert(v1[n_remaining - r + n - 1] == v2[n_remaining - r + n - 1]);
        }
        assert(spec_lead(v1, n_remaining, n) == spec_lead(v2, n_remaining, n));
        let card = line.last();
        let w1 = v1.update(n_remaining - 1, card);
        let w2 = v2.update(n_remaining - 1, card);
        assert(w1.len() == v1.len() && w2.len() == v2.len());
        assert(forall|i: int| n_remaining - 1 <= i < w1.len() ==> w1[i] == w2[i]);
        let hands2 = hands.update(turn, hands[turn] ^ canonical_of(card));
        assert(hands2.len() == hands.len());
        lemma_mod_bound(turn + rotation, n);
        lemma_terminal_line_frame(hands2, napoleon, adjutant, (turn + rotation) % n, rotation,
            w1, w2, n_remaining - 1, trump, contract, declarer, defender, line.drop_last());
    }
}

/// The exhaustive AND/OR search. At a trick boundary the completed trick is
/// scored, judged, and may reverse the rotation or hand over to the final
/// trick; otherwise each legal candidate is tried in ascending card-bit
/// order, the mover's hand being restored on every path, until one wins for
/// the mover's camp or all are refuted.
#[verifier::rlimit(100)]
pub fn solve(hands: &mut Vec<Cards>, napoleon: PlayerIndex, adjutant: PlayerIndex,
    turn: PlayerIndex, rotation: PlayerIndex, variation: &mut Vec<Cards>,
    n_remaining: CardIndex, trump: Suit, contract: Declaration, declarer: Declaration,
    defender: Declaration) -> (outcome: SearchOutcome)
    requires
        search_pre(old(hands)@, turn as int, rotation as int, old(variation)@, n_remaining as int,
            trump, contract as int, declarer as int, defender as int),
    ensures
        final(hands)@ == old(hands)@,
        final(variation)@.len() == old(variation)@.len(),
        forall|i: int|
            n_remaining <= i < old(variation)@.len() ==> final(variation)@[i] == old(
            variation)@[i],
        outcome.camp == solve_camp(old(hands)@, napoleon as int, adjutant as int, turn as int,
            rotation as int, old(variation)@, n_remaining as int, trump, contract as int,
            declarer as int, defender as int),
        outcome.camp != Camp::UNSETTLED,
        outcome.n_leaves >= 1,
        outcome.bound >= 1,
        outcome.variation@.len() <= n_remaining,
        ({
            let n = old(hands)@.len() as int;
            (n_remaining as int) % n == 0 && (n_remaining as int) < old(variation)@.len()
                && boundary_verdict(old(hands)@, napoleon as int, adjutant as int, turn as int,
                rotation as int, old(variation)@, n_remaining as int, trump, contract as int,
                declarer as int, defender as int) != Camp::UNSETTLED
        }) ==> (outcome.variation@.len() == 0 && outcome.n_leaves == 1 && outcome.bound == 1),
        ({
            let n = old(hands)@.len() as int;
            (n_remaining as int) % n == 0 && (n_remaining as int) < old(variation)@.len()
                && boundary_verdict(old(hands)@, napoleon as int, adjutant as int, turn as int,
                rotation as int, old(variation)@, n_remaining as int, trump, contract as int,
                declarer as int, defender as int) == Camp::UNSETTLED && n_remaining == old(
                hands)@.len()
        }) ==> (outcome.n_leaves == 1 && outcome.bound == 1 && outcome.variation@
            == last_trick_seq(old(hands)@, boundary_state(old(hands)@, napoleon as int,
            adjutant as int, turn as int, rotation as int, old(variation)@, n_remaining as int,
            trump, contract as int, declarer as int, defender as int).0, boundary_rotation(old(
            hands)@, rotation as int, old(variation)@, n_remaining as int, trump))),
        is_terminal_line(old(hands)@, napoleon as int, adjutant as int, turn as int,
            rotation as int, old(variation)@, n_remaining as int, trump, contract as int,
            declarer as int, defender as int, outcome.variation@),
    decreases n_remaining,
{
    let ghost g_h = old(hands)@;
    let ghost g_v0 = old(variation)@;
    let n_players = hands.len();
    let v_len = variation.len();
    let ghost n = n_players as int;
    let ghost g_len = g_v0.len() as int;
    let remainder = n_remaining % n_players;
    let mut turn2 = turn;
    let mut rotation2 = rotation;
    let mut declarer2 = declarer;
    let mut defender2 = defender;
    if remainder == 0 && n_remaining < variation.len() {
        proof {
            lemma_multiple_gap(n_remaining as int, g_len, n);
        }
        let mut trick: Vec<Cards> = Vec::with_capacity(n_players);
        let mut idx: usize = 0;
        while idx < n_players
            invariant
                idx <= n_players,
                hands@ == g_h,
                variation@ == g_v0,
                n == n_players,
                n_remaining + n <= g_len,
                g_len == g_v0.len(),
                v_len == g_len,
                trick@.len() == idx,
                forall|j: int| 0 <= j < idx ==> trick@[j] == g_v0[n_remaining + j],
            decreases n_players - idx,
        {
            trick.push(variation[n_remaining + idx]);
            idx = idx + 1;
        }
        proof {
            assert(trick@ =~= g_v0.subrange(n_remaining as int, n_remaining + n));
        }
        let mut field: u64 = 0;
        let mut k2: usize = 0;
        while k2 < n_players
            invariant
                k2 <= n_players,
                n == n_players,
                trick@.len() == n_players,
                field == or_fold(trick@.take(k2 as int)),
            decreases n_players - k2,
        {
            field = field | trick[k2];
            proof {
                assert(trick@.take(k2 as int + 1).drop_last() =~= trick@.take(k2 as int));
            }
            k2 = k2 + 1;
        }
        proof {
            assert(trick@.take(trick@.len() as int) =~= trick@);
            crate::counting::lemma_card_count_bound(field & ALL_PICTURES);
        }
        let n_picture_cards = count_cards(field & ALL_PICTURES) as usize;
        let taker = trick_taker(&trick, trump, is_first_trick(n_remaining, n_players));
        proof {
            assert(taker * rotation2 <= 2500) by (nonlinear_arith)
                requires
                    0 <= taker <= 50 && 0 <= rotation2 <= 50,
            ;
        }
        turn2 = (turn2 + taker * rotation2) % n_players;
        proof {
            lemma_mod_bound(turn as int + (taker as int) * (rotation as int), n);
            lemma_fold_pics(g_v0, n_remaining as int, n_remaining + n);
            assert(pics_in(g_v0, n_remaining as int, pend_end(n_remaining as int, n, g_len))
                == pics_in(g_v0, n_remaining as int, n_remaining + n));
        }
        if turn2 == napoleon || turn2 == adjutant {
            declarer2 = declarer2 + n_picture_cards;
        } else {
            defender2 = defender2 + n_picture_cards;
        }
        let winner = judge(contract, declarer2, defender2);
        proof {
            let state = boundary_state(g_h, napoleon as int, adjutant as int, turn as int,
                rotation as int, g_v0, n_remaining as int, trump, contract as int,
                declarer as int, defender as int);
            assert(state.0 == turn2 as int && state.1 == declarer2 as int && state.2
                == defender2 as int);
            assert(winner == boundary_verdict(g_h, napoleon as int, adjutant as int, turn as int,
                rotation as int, g_v0, n_remaining as int, trump, contract as int,
                declarer as int, defender as int));
        }
        if !(winner == Camp::UNSETTLED) {
            return SearchOutcome {
                camp: winner,
                variation: Vec::with_capacity(variation.len() - n_remaining),
                n_leaves: 1,
                bound: 1,
            };
        }
        if count_cards(field & reversing_jacks(trump)) == 1 {
            rotation2 = n_players - rotation2;
        }
        proof {
            assert(rotation2 as int == boundary_rotation(g_h, rotation as int, g_v0,
                n_remaining as int, trump));
        }
        if n_remaining == n_players {
            proof {
                vstd::arithmetic::div_mod::lemma_div_by_self(n);
                assert forall|p2: int| 0 <= p2 < n implies card_count(g_h[p2]) == 1 by {
                    assert(card_count(g_h[p2]) == n_remaining as int / n);
                }
            }
            let outcome = solve_last_trick(hands, napoleon, adjutant, turn2, rotation2, trump,
                contract, declarer2, defender2);
            return SearchOutcome {
                camp: outcome.camp,
                variation: outcome.variation,
                n_leaves: outcome.n_leaves,
                bound: outcome.bound,
            };
        }
    }
    let belonging = if turn2 == napoleon || turn2 == adjutant {
        Camp::NAPOLEONIC
    } else {
        Camp::ALLIED
    };
    proof {
        // an interior node always has more than one trick of cards left
        if remainder == 0 {
            if n_remaining < g_len {
                assert(n_remaining != n_players);
                lemma_multiple_gap(n as int, n_remaining as int, n);
            } else {
                assert(n_remaining == g_len);
                lemma_multiple_gap(n as int, n_remaining as int, n);
            }
        }
        assert(n_players < n_remaining);
        // the mover holds at least one card
        let q = n_remaining as int / n;
        vstd::arithmetic::div_mod::lemma_fundamental_div_mod(n_remaining as int, n);
        if remainder == 0 {
            assert(q >= 1) by (nonlinear_arith)
                requires
                    n_remaining as int == n * q && n_remaining as int > 0 && n >= 1,
            ;
            assert(card_count(g_h[turn2 as int]) == q);
        } else {
            lemma_player_at_zero(turn2 as int, rotation2 as int, n);
            assert(card_count(g_h[player_at(turn2 as int, rotation2 as int, n, 0)]) == q + 1);
        }
        lemma_card_count_zero(g_h[turn2 as int]);
        assert(g_h[turn2 as int] != 0);
    }
    let lead = if remainder == 0 {
        0
    } else {
        proof {
            vstd::arithmetic::div_mod::lemma_fundamental_div_mod(n_remaining as int, n);
            let base = n_remaining as int - remainder;
            assert(base == n * (n_remaining as int / n));
            lemma_mod_multiples_vanish(n_remaining as int / n, 0, n);
            lemma_small_mod(0nat, n as nat);
            lemma_multiple_gap(base, g_len, n);
            assert(n_remaining - remainder + n_players - 1 < v_len);
        }
        variation[n_remaining - remainder + n_players - 1]
    };
    proof {
        assert(lead == spec_lead(g_v0, n_remaining as int, n));
    }
    let mut choice = available_cards(hands[turn2], lead);
    let ghost g_choice0 = choice;
    let ghost g_w: int = if remainder > 0 {
        pend_end(n_remaining as int, n, g_len)
    } else {
        n_remaining as int
    };
    proof {
        lemma_available_cards_nonempty(g_h[turn2 as int], lead);
        assert(g_choice0 == spec_available_cards(g_h[turn2 as int], spec_lead(g_v0,
            n_remaining as int, n)));
        if remainder > 0 {
            assert(pics_in(g_v0, n_remaining as int, g_w) <= pics_in(g_v0, n_remaining as int,
                pend_end(n_remaining as int, n, g_len)));
            vstd::arithmetic::div_mod::lemma_fundamental_div_mod(n_remaining as int, n);
            let base = n_remaining as int - remainder;
            assert(base == n * (n_remaining as int / n));
            lemma_mod_multiples_vanish(n_remaining as int / n, 0, n);
            lemma_small_mod(0nat, n as nat);
            lemma_multiple_gap(base, g_len, n);
        }
        assert(g_w <= g_len);
        assert forall|l: Seq<Cards>|
            #[trigger] is_terminal_line(g_h, napoleon as int, adjutant as int, turn as int,
                rotation as int, g_v0, n_remaining as int, trump, contract as int,
                declarer as int, defender as int, l) == interior_line(g_h, napoleon as int,
                adjutant as int, turn2 as int, rotation2 as int, g_v0, n_remaining as int, trump,
                contract as int, declarer2 as int, defender2 as int, l) by {
        }
    }
    proof {
        assert(choice & choice == choice) by (bit_vector);
    }
    let mut n_visited_leaves: u64 = 0;
    let mut disproof_number: u64 = 0;
    let mut toughest_variation: Vec<Cards> = Vec::new();
    let mut greatest_proof_number: u64 = 0;
    while choice != 0
        invariant
            g_h == old(hands)@,
            g_v0 == old(variation)@,
            hands@ == g_h,
            g_h.len() == n,
            n == n_players,
            2 <= n <= 50,
            g_len == g_v0.len(),
            v_len == g_len,
            variation@.len() == g_v0.len(),
            lead == spec_lead(g_v0, n_remaining as int, n),
            forall|i: int| n_remaining <= i < g_len ==> variation@[i] == g_v0[i],
            search_pre(g_h, turn as int, rotation as int, g_v0, n_remaining as int, trump,
                contract as int, declarer as int, defender as int),
            n_players < n_remaining <= g_len,
            turn2 < n_players,
            1 <= rotation2 < n_players,
            rotation2 == 1 || rotation2 as int + 1 == n,
            declarer2 >= 0,
            defender2 >= 0,
            counts_ok(g_h, turn2 as int, rotation2 as int, n_remaining as int),
            declarer2 + defender2 + hands_pics(g_h, 0) + pics_in(g_v0, n_remaining as int, g_w)
                <= 20,
            g_w == if remainder > 0 { pend_end(n_remaining as int, n, g_len) } else {
                n_remaining as int
            },
            remainder == n_remaining as int % n,
            (remainder == 0 && (n_remaining as int) < g_len) ==> boundary_verdict(g_h,
                napoleon as int, adjutant as int, turn as int, rotation as int, g_v0,
                n_remaining as int, trump, contract as int, declarer as int, defender as int)
                == Camp::UNSETTLED,
            window_ok(g_v0, n_remaining as int, g_w),
            belonging == (if turn2 == napoleon || turn2 == adjutant {
                Camp::NAPOLEONIC
            } else {
                Camp::ALLIED
            }),
            g_choice0 == spec_available_cards(g_h[turn2 as int], spec_lead(g_v0,
                n_remaining as int, n)),
            g_w <= g_len,
            choice & g_choice0 == choice,
            solve_camp(g_h, napoleon as int, adjutant as int, turn as int, rotation as int, g_v0,
                n_remaining as int, trump, contract as int, declarer as int, defender as int)
                == interior_camp(g_h, napoleon as int, adjutant as int, turn2 as int,
                rotation2 as int, g_v0, n_remaining as int, trump, contract as int,
                declarer2 as int, defender2 as int),
            winning_in(g_h, napoleon as int, adjutant as int, turn2 as int, rotation2 as int,
                g_v0, n_remaining as int, trump, contract as int, declarer2 as int,
                defender2 as int, g_choice0) == winning_in(g_h, napoleon as int, adjutant as int,
                turn2 as int, rotation2 as int, g_v0, n_remaining as int, trump, contract as int,
                declarer2 as int, defender2 as int, choice),
            choice != g_choice0 ==> (n_visited_leaves >= 1 && disproof_number >= 1),
            choice != g_choice0 ==> greatest_proof_number >= 1,
            toughest_variation@.len() <= n_remaining,
            forall|l: Seq<Cards>|
                #[trigger] is_terminal_line(g_h, napoleon as int, adjutant as int, turn as int,
                    rotation as int, g_v0, n_remaining as int, trump, contract as int,
                    declarer as int, defender as int, l) == interior_line(g_h, napoleon as int,
                    adjutant as int, turn2 as int, rotation2 as int, g_v0, n_remaining as int,
                    trump, contract as int, declarer2 as int, defender2 as int, l),
            greatest_proof_number >= 1 ==> interior_line(g_h, napoleon as int, adjutant as int,
                turn2 as int, rotation2 as int, g_v0, n_remaining as int, trump, contract as int,
                declarer2 as int, defender2 as int, toughest_variation@),
        decreases choice,
    {
        let card = choice & !(choice - 1);
        proof {
            crate::cards::lemma_low_bit(choice);
            crate::cards::lemma_card_constants();
        }
        let ghost g_p = choose|p: u64| p < 64 && card == 1u64 << p;
        proof {
            assert(g_choice0 & card == card && card & g_choice0 == card) by (bit_vector)
                requires
                    card == choice & !((choice - 1) as u64) && choice != 0 && choice & g_choice0
                        == choice,
            ;
            assert(g_choice0 & (1u64 << g_p) != 0) by (bit_vector)
                requires
                    g_choice0 & card == card && card == 1u64 << g_p && g_p < 64,
            ;
        }
        let card_original = if card & JOKERS * ALL_SUITS == 0 {
            card
        } else {
            rank_of(card)
        };
        proof {
            lemma_candidate_card(g_h[turn2 as int], lead, g_p);
            assert(card_original == canonical_of(card));
        }
        let h = hands[turn2];
        hands.set(turn2, h ^ card_original);
        variation.set(n_remaining - 1, card);
        proof {
            assert forall|i: int| n_remaining <= i < g_len implies variation@[i] == g_v0[i] by {
            }
            lemma_child_position(g_h, turn2 as int, rotation2 as int, variation@, g_v0,
                n_remaining as int, trump, contract as int, declarer2 as int, defender2 as int,
                g_w, card);
        }
        let ghost g_hcall = hands@;
        let ghost g_vcall = variation@;
        let sub_outcome = solve(hands, napoleon, adjutant, (turn2 + rotation2) % n_players,
            rotation2, variation, n_remaining - 1, trump, contract, declarer2, defender2);
        let SearchOutcome { camp: result, variation: mut pv, n_leaves: n_subtree_leaves,
            bound: proof_number } = sub_outcome;
        let h2 = hands[turn2];
        hands.set(turn2, h2 ^ card_original);
        proof {
            assert((h ^ card_original) ^ card_original == h) by (bit_vector);
            assert(hands@ =~= g_h);
            // the subtree's verdict is the candidate's game value
            assert(g_hcall == g_h.update(turn2 as int, (g_h[turn2 as int] ^ card_original)
                as u64));
            assert(forall|i: int|
                n_remaining - 1 <= i < g_len ==> g_vcall[i] == g_v0.update(n_remaining as int
                    - 1, card)[i]);
            lemma_solve_camp_frame(g_hcall, napoleon as int, adjutant as int, (turn2 as int
                + rotation2 as int) % n, rotation2 as int, g_v0.update(n_remaining as int - 1,
                card), g_vcall, n_remaining as int - 1, trump, contract as int, declarer2 as int,
                defender2 as int);
            assert(result == child_camp(g_h, napoleon as int, adjutant as int, turn2 as int,
                rotation2 as int, g_v0, n_remaining as int, trump, contract as int,
                declarer2 as int, defender2 as int, card));
            lemma_terminal_line_frame(g_hcall, napoleon as int, adjutant as int, (turn2 as int
                + rotation2 as int) % n, rotation2 as int, g_v0.update(n_remaining as int - 1,
                card), g_vcall, n_remaining as int - 1, trump, contract as int, declarer2 as int,
                defender2 as int, pv@);
            lemma_winning_in_decreases(choice);
            crate::cards::lemma_single_card_nonzero(card);
        }
        let ghost g_subline = pv@;
        pv.push(card);
        proof {
            assert(pv@.drop_last() =~= g_subline);
            assert(pv@.last() == card);
            assert(interior_line(g_h, napoleon as int, adjutant as int, turn2 as int,
                rotation2 as int, g_v0, n_remaining as int, trump, contract as int,
                declarer2 as int, defender2 as int, pv@));
        }
        n_visited_leaves = n_visited_leaves.saturating_add(n_subtree_leaves);
        disproof_number = disproof_number.saturating_add(proof_number);
        if result == belonging {
            proof {
                assert(winning_in(g_h, napoleon as int, adjutant as int, turn2 as int,
                    rotation2 as int, g_v0, n_remaining as int, trump, contract as int,
                    declarer2 as int, defender2 as int, choice));
            }
            return SearchOutcome {
                camp: result,
                variation: pv,
                n_leaves: n_visited_leaves,
                bound: proof_number,
            };
        }
        if proof_number > greatest_proof_number {
            toughest_variation = pv;
            greatest_proof_number = proof_number;
        }
        proof {
            assert(winning_in(g_h, napoleon as int, adjutant as int, turn2 as int,
                rotation2 as int, g_v0, n_remaining as int, trump, contract as int,
                declarer2 as int, defender2 as int, choice) == winning_in(g_h, napoleon as int,
                adjutant as int, turn2 as int, rotation2 as int, g_v0, n_remaining as int, trump,
                contract as int, declarer2 as int, defender2 as int, choice ^ card));
            assert((choice ^ card) & g_choice0 == (choice ^ card) && (choice ^ card)
                != g_choice0) by (bit_vector)
                requires
                    choice & g_choice0 == choice && card == choice & !((choice - 1) as u64)
                        && choice != 0,
            ;
        }
        choice ^= card;
    }
    proof {
        assert(winning_in(g_h, napoleon as int, adjutant as int, turn2 as int, rotation2 as int,
            g_v0, n_remaining as int, trump, contract as int, declarer2 as int, defender2 as int,
            0u64) == false);
    }
    SearchOutcome {
        camp: Camp::opposite_party(belonging),
        variation: toughest_variation,
        n_leaves: n_visited_leaves,
        bound: disproof_number,
    }
}



/// What replaying a forced opening leads to: a move its mover does not hold,
/// a trick whose judging settles the contract on the spot, or the position
/// left for the search once every move has been applied.
pub enum Replay {
    Invalid,
    Decided(Camp),
    Position {
        hands: Seq<Cards>,
        turn: int,
        rotation: int,
        variation: Seq<Cards>,
        n_remaining: int,
        declarer: int,
        defender: int,
    },
}

/// The replay of `moves[i..]` from the given state, move by move: each card's
/// canonical identity must be held by its mover; each completed trick is
/// scored, judged, and may reverse the rotation, exactly as the search does.
pub open spec fn replay_from(hands: Seq<Cards>, napoleon: int, adjutant: int, turn: int,
    rotation: int, variation: Seq<Cards>, n_remaining: int, trump: Suit, contract: int,
    declarer: int, defender: int, moves: Seq<Cards>, i: int) -> Replay
    decreases moves.len() - i,
{
    if i < 0 || i >= moves.len() {
        Replay::Position { hands, turn, rotation, variation, n_remaining, declarer, defender }
    } else {
        let card = moves[i];
        let card_original = canonical_of(card);
        if hands[turn] & card_original == 0 {
            Replay::Invalid
        } else {
            let n = hands.len() as int;
            let hands2 = hands.update(turn, hands[turn] ^ card_original);
            let turn2 = (turn + rotation) % n;
            let n_remaining2 = n_remaining - 1;
            let variation2 = variation.update(n_remaining2, card);
            if n_remaining2 % n == 0 && n_remaining2 < variation2.len() {
                let state = boundary_state(hands2, napoleon, adjutant, turn2, rotation,
                    variation2, n_remaining2, trump, contract, declarer, defender);
                let winner = spec_judge(contract, state.1, state.2);
                if winner != Camp::UNSETTLED {
                    Replay::Decided(winner)
                } else {
                    replay_from(hands2, napoleon, adjutant, state.0, boundary_rotation(hands2,
                        rotation, variation2, n_remaining2, trump), variation2, n_remaining2,
                        trump, contract, state.1, state.2, moves, i + 1)
                }
            } else {
                replay_from(hands2, napoleon, adjutant, turn2, rotation, variation2,
                    n_remaining2, trump, contract, declarer, defender, moves, i + 1)
            }
        }
    }
}

/// The number of remaining cards rounded up to whole tricks: the live length
/// of the variation buffer handed to the search.
pub open spec fn round_up_tricks(n_remaining: int, n: int) -> int {
    ((n_remaining - 1) / n + 1) * n
}

/// What the replayer owes for each way the replay can end: no result exactly
/// on an unheld move; the settled verdict with unit diagnostics when a
/// replayed trick decides the contract; else the search's own verdict on the
/// replayed position.
pub open spec fn replay_agrees(replay: Replay, outcome: Option<SearchOutcome>, napoleon: int,
    adjutant: int, trump: Suit, contract: int) -> bool {
    match replay {
        Replay::Invalid => outcome is None,
        Replay::Decided(winner) => outcome matches Some(o) && o.camp == winner && o.n_leaves == 1
            && o.bound == 1 && o.variation@.len() == 0,
        Replay::Position { hands, turn, rotation, variation, n_remaining, declarer, defender } => {
            outcome matches Some(o) && o.camp == solve_camp(hands, napoleon, adjutant, turn,
                rotation, variation.subrange(0, round_up_tricks(n_remaining, hands.len() as int)),
                n_remaining, trump, contract, declarer, defender) && o.camp != Camp::UNSETTLED
                && o.n_leaves >= 1 && o.bound >= 1 && o.variation@.len() <= n_remaining
        },
    }
}

/// The external move replayer: applies a forced opening to a private copy of
/// the hands, scoring and judging each completed trick exactly as the search
/// does, then resumes the search on the rest of the position. A move that the
/// mover does not hold yields no result at all. The opening must stop short
/// of the final trick (`moves.len() + hands.len() < n_remaining`) so that the
/// position handed to the search still reaches that trick through the
/// terminal-trick resolver, as `search_pre` asks.
#[verifier::rlimit(100)]
pub fn move_and_solve(hands_original: &Vec<Cards>, napoleon: PlayerIndex,
    adjutant: PlayerIndex, turn: PlayerIndex, rotation: PlayerIndex, variation: &mut Vec<Cards>,
    n_remaining: CardIndex, trump: Suit, contract: Declaration, declarer: Declaration,
    defender: Declaration, moves: &Vec<Cards>) -> (outcome: Option<SearchOutcome>)
    requires
        search_pre(hands_original@, turn as int, rotation as int, old(variation)@,
            n_remaining as int, trump, contract as int, declarer as int, defender as int),
        forall|i: int| 0 <= i < moves@.len() ==> single_card(moves@[i]),
        moves@.len() + hands_original@.len() < n_remaining,
    ensures
        replay_agrees(replay_from(hands_original@, napoleon as int, adjutant as int, turn as int,
            rotation as int, old(variation)@, n_remaining as int, trump, contract as int,
            declarer as int, defender as int, moves@, 0), outcome, napoleon as int,
            adjutant as int, trump, contract as int),
        outcome is None <==> replay_from(hands_original@, napoleon as int, adjutant as int,
            turn as int, rotation as int, old(variation)@, n_remaining as int, trump,
            contract as int, declarer as int, defender as int, moves@, 0) is Invalid,
        final(variation)@.len() == old(variation)@.len(),
        forall|k: int|
            n_remaining <= k < old(variation)@.len() ==> final(variation)@[k] == old(
            variation)@[k],
{
    let ghost g_v0 = old(variation)@;
    let n_players = hands_original.len();
    let v_len = variation.len();
    let ghost n = n_players as int;
    let ghost g_len = g_v0.len() as int;
    let mut hands: Vec<Cards> = Vec::new();
    let mut copy_i: usize = 0;
    while copy_i < n_players
        invariant
            copy_i <= n_players,
            n_players == hands_original@.len(),
            hands@ == hands_original@.take(copy_i as int),
        decreases n_players - copy_i,
    {
        hands.push(hands_original[copy_i]);
        copy_i = copy_i + 1;
    }
    proof {
        assert(hands@ =~= hands_original@);
    }
    let mut t = turn;
    let mut rot = rotation;
    let mut n_rem = n_remaining;
    let mut dec = declarer;
    let mut def = defender;
    let mut i: usize = 0;
    while i < moves.len()
        invariant
            g_v0 == old(variation)@,
            i <= moves@.len(),
            n == n_players,
            n_players == hands@.len(),
            g_len == g_v0.len(),
            v_len == g_len,
            variation@.len() == g_v0.len(),
            n_rem == n_remaining - i,
            moves@.len() + n_players < n_remaining,
            forall|j: int| 0 <= j < moves@.len() ==> single_card(moves@[j]),
            forall|k: int| n_remaining <= k < g_len ==> variation@[k] == g_v0[k],
            replay_from(hands_original@, napoleon as int, adjutant as int, turn as int,
                rotation as int, g_v0, n_remaining as int, trump, contract as int,
                declarer as int, defender as int, moves@, 0) == replay_from(hands@,
                napoleon as int, adjutant as int, t as int, rot as int, variation@, n_rem as int,
                trump, contract as int, dec as int, def as int, moves@, i as int),
            2 <= n <= 50,
            t < n_players,
            1 <= rot < n_players,
            rot == 1 || rot as int + 1 == n,
            is_suit(trump),
            contract <= 20,
            dec >= 0,
            def >= 0,
            (g_len as int) % n == 0,
            n_rem <= g_len,
            valid_hands(hands@),
            counts_ok(hands@, t as int, rot as int, n_rem as int),
            window_ok(variation@, n_rem as int, pend_window(n_rem as int, n, g_len)),
            dec + def + hands_pics(hands@, 0) + pics_in(variation@, n_rem as int, pend_window(
                n_rem as int, n, g_len)) <= 20,
        decreases moves.len() - i,
    {
        let card = moves[i];
        proof {
            crate::cards::lemma_single_card_nonzero(card);
            crate::cards::lemma_card_constants();
        }
        let card_original = if card & JOKERS * ALL_SUITS == 0 {
            card
        } else {
            rank_of(card)
        };
        let ghost g_p = choose|p: u64| p < 64 && card == 1u64 << p;
        proof {
            crate::moves::lemma_canonical_form(g_p);
            assert(card_original == canonical_of(card));
        }
        let ghost g_rot0 = rot as int;
        let ghost g_dec0 = dec as int;
        let ghost g_def0 = def as int;
        if hands[t] & card_original == 0 {
            proof {
                assert(replay_from(hands@, napoleon as int, adjutant as int, t as int,
                    rot as int, variation@, n_rem as int, trump, contract as int, dec as int,
                    def as int, moves@, i as int) is Invalid);
            }
            return None;
        }
        proof {
            crate::cards::lemma_single_card_subset(hands@[t as int], card_original);
        }
        let ghost g_hands_before = hands@;
        let ghost g_var_before = variation@;
        let ghost g_t0 = t as int;
        let h = hands[t];
        hands.set(t, h ^ card_original);
        n_rem = n_rem - 1;
        variation.set(n_rem, card);
        proof {
            let m = n_rem as int + 1;
            if m % n > 0 {
                vstd::arithmetic::div_mod::lemma_fundamental_div_mod(m, n);
                lemma_mod_bound(m, n);
                let base = m - m % n;
                assert(base == n * (m / n));
                lemma_mod_multiples_vanish(m / n, 0, n);
                lemma_small_mod(0nat, n as nat);
                lemma_multiple_gap(base, g_len, n);
            }
            assert(pend_window(m, n, g_len) <= g_len);
            lemma_child_position(g_hands_before, g_t0, rot as int, variation@, g_var_before,
                n_rem as int + 1, trump, contract as int, dec as int, def as int, pend_window(
                n_rem as int + 1, n, g_len), card);
        }
        t = (t + rot) % n_players;
        if n_rem % n_players == 0 && n_rem < variation.len() {
            let mut trick: Vec<Cards> = Vec::with_capacity(n_players);
            let mut idx: usize = 0;
            proof {
                lemma_multiple_gap(n_rem as int, g_len, n);
            }
            while idx < n_players
                invariant
                    idx <= n_players,
                    n == n_players,
                    n_rem + n <= g_len,
                    v_len == g_len,
                    variation@.len() == g_len,
                    trick@.len() == idx,
                    forall|j: int| 0 <= j < idx ==> trick@[j] == variation@[n_rem + j],
                decreases n_players - idx,
            {
                trick.push(variation[n_rem + idx]);
                idx = idx + 1;
            }
            proof {
                assert(trick@ =~= variation@.subrange(n_rem as int, n_rem as int + n));
            }
            let mut field: u64 = 0;
            let mut k2: usize = 0;
            while k2 < n_players
                invariant
                    k2 <= n_players,
                    n == n_players,
                    trick@.len() == n_players,
                    field == or_fold(trick@.take(k2 as int)),
                decreases n_players - k2,
            {
                field = field | trick[k2];
                proof {
                    assert(trick@.take(k2 as int + 1).drop_last() =~= trick@.take(k2 as int));
                }
                k2 = k2 + 1;
            }
            proof {
                assert(trick@.take(trick@.len() as int) =~= trick@);
                crate::counting::lemma_card_count_bound(field & ALL_PICTURES);
            }
            let n_picture_cards = count_cards(field & ALL_PICTURES) as usize;
            let taker = trick_taker(&trick, trump, is_first_trick(n_rem, n_players));
            proof {
                assert(taker * rot <= 2500) by (nonlinear_arith)
                    requires
                        0 <= taker <= 50 && 0 <= rot <= 50,
                ;
                lemma_mod_bound(t as int + (taker as int) * (rot as int), n);
                lemma_fold_pics(variation@, n_rem as int, n_rem as int + n);
            }
            t = (t + taker * rot) % n_players;
            if t == napoleon || t == adjutant {
                dec = dec + n_picture_cards;
            } else {
                def = def + n_picture_cards;
            }
            let winner = judge(contract, dec, def);
            proof {
                let state = boundary_state(hands@, napoleon as int, adjutant as int, ((g_t0
                    + g_rot0) % n) as int, g_rot0, variation@, n_rem as int, trump,
                    contract as int, g_dec0, g_def0);
                assert(state.0 == t as int && state.1 == dec as int && state.2 == def as int);
            }
            if !(winner == Camp::UNSETTLED) {
                proof {
                    assert(replay_from(g_hands_before, napoleon as int, adjutant as int, g_t0,
                        g_rot0, g_var_before, n_rem as int + 1, trump, contract as int, g_dec0,
                        g_def0, moves@, i as int) == Replay::Decided(winner));
                }
                return Some(SearchOutcome {
                    camp: winner,
                    variation: Vec::new(),
                    n_leaves: 1,
                    bound: 1,
                });
            }
            if count_cards(field & reversing_jacks(trump)) == 1 {
                rot = n_players - rot;
            }
            proof {
                assert(rot as int == boundary_rotation(hands@, g_rot0, variation@, n_rem as int,
                    trump));
            }
        }
        proof {
            assert(replay_from(g_hands_before, napoleon as int, adjutant as int, g_t0, g_rot0,
                g_var_before, n_rem as int + 1, trump, contract as int, g_dec0, g_def0, moves@,
                i as int) == replay_from(hands@, napoleon as int, adjutant as int, t as int,
                rot as int, variation@, n_rem as int, trump, contract as int, dec as int,
                def as int, moves@, i as int + 1));
        }
        i = i + 1;
    }
    let ghost g_limit = (((n_rem - 1) as int / n) + 1) * n;
    proof {
        lemma_decrement_mod(n_rem as int, n);
        vstd::arithmetic::div_mod::lemma_fundamental_div_mod(n_rem as int, n);
        vstd::arithmetic::div_mod::lemma_fundamental_div_mod(n_rem as int - 1, n);
        lemma_mod_bound(n_rem as int, n);
        lemma_mod_bound(n_rem as int - 1, n);
        let q = n_rem as int / n;
        let r = n_rem as int % n;
        if r > 0 {
            assert((q + 1) * n == q * n + n) by (nonlinear_arith);
            assert(n * q == q * n) by (nonlinear_arith);
            assert(g_limit == n_rem + (n - r));
            assert((n_rem as int - r) % n == 0) by {
                lemma_mod_multiples_vanish(q, 0, n);
                lemma_small_mod(0nat, n as nat);
            }
            lemma_multiple_gap(n_rem as int - r, g_len, n);
        } else {
            assert((n_rem - 1) as int / n == q - 1);
            assert(g_limit == ((q - 1) + 1) * n);
            assert(((q - 1) + 1) * n == q * n && q * n == n * q) by (nonlinear_arith);
            assert(n_rem as int == n * q + r);
            assert(g_limit == n_rem);
        }
        assert(g_limit <= g_len);
        lemma_mod_multiples_vanish(((n_rem - 1) as int / n) + 1, 0, n);
        lemma_small_mod(0nat, n as nat);
        assert((g_limit as int) % n == 0) by (nonlinear_arith)
            requires
                g_limit == (((n_rem - 1) as int / n) + 1) * n && (n * (((n_rem - 1) as int / n)
                    + 1) + 0int) % n == 0int % n && 0int % n == 0 && n >= 1,
        ;
    }
    let limit = ((n_rem - 1) / n_players + 1) * n_players;
    proof {
        assert(limit == g_limit);
    }
    let mut prefix: Vec<Cards> = Vec::new();
    let mut j: usize = 0;
    while j < limit
        invariant
            j <= limit,
            limit <= v_len,
            v_len == variation@.len(),
            prefix@ == variation@.take(j as int),
        decreases limit - j,
    {
        prefix.push(variation[j]);
        j = j + 1;
    }
    proof {
        assert(prefix@ =~= variation@.take(limit as int));
        let r = n_rem as int % n;
        assert(pend_end(n_rem as int, n, limit as int) == pend_window(n_rem as int, n, g_len));
        lemma_pics_in_frame(prefix@, variation@, n_rem as int, pend_window(n_rem as int, n,
            g_len));
        assert(search_pre(hands@, t as int, rot as int, prefix@, n_rem as int, trump,
            contract as int, dec as int, def as int));
    }
    let ghost g_hands_final = hands@;
    let ghost g_var_final = variation@;
    let outcome = solve(&mut hands, napoleon, adjutant, t, rot, &mut prefix, n_rem, trump,
        contract, dec, def);
    proof {
        assert(replay_from(g_hands_final, napoleon as int, adjutant as int, t as int, rot as int,
            g_var_final, n_rem as int, trump, contract as int, dec as int, def as int, moves@,
            moves@.len() as int) == (Replay::Position {
            hands: g_hands_final,
            turn: t as int,
            rotation: rot as int,
            variation: g_var_final,
            n_remaining: n_rem as int,
            declarer: dec as int,
            defender: def as int,
        }));
        assert(round_up_tricks(n_rem as int, n) == g_limit);
        assert(g_var_final.take(limit as int) =~= g_var_final.subrange(0, round_up_tricks(
            n_rem as int, n)));
    }
    Some(outcome)
}

/// The end of the unscored window of a replay state: the open trick's slots,
/// and nothing once a boundary has just been scored.
pub open spec fn pend_window(n_remaining: int, n: int, len: int) -> int {
    if n_remaining % n > 0 {
        pend_end(n_remaining, n, len)
    } else {
        n_remaining
    }
}

/// Stepping the base seat by one rotation commutes with reduction modulo the
/// seat count.
proof fn lemma_step_once(base: int, step: int, n: int)
    requires
        0 < n,
        0 <= step < n,
    ensures
        ((base % n) + step) % n == (base + step) % n,
{
    lemma_add_mod_noop(base % n, step, n);
    lemma_add_mod_noop(base, step, n);
    lemma_mod_twice(base, n);
    lemma_small_mod(step as nat, n as nat);
}

proof fn lemma_player_at_shift(turn: int, rotation: int, n: int, k: int)
    requires
        0 <= turn < n,
        0 < rotation < n,
        0 <= k,
    ensures
        player_at((turn + rotation) % n, rotation, n, k) == player_at(turn, rotation, n, k + 1),
{
    lemma_add_mod_noop(turn + rotation, k * rotation, n);
    lemma_add_mod_noop((turn + rotation) % n, k * rotation, n);
    lemma_mod_twice(turn + rotation, n);
    assert((k + 1) * rotation == k * rotation + rotation) by (nonlinear_arith);
}

proof fn lemma_player_at_zero(turn: int, rotation: int, n: int)
    requires
        0 <= turn < n,
        0 < n,
    ensures
        player_at(turn, rotation, n, 0) == turn,
{
    assert((0int) * rotation == 0);
    lemma_small_mod(turn as nat, n as nat);
}

proof fn lemma_player_at_wrap(turn: int, rotation: int, n: int)
    requires
        0 <= turn < n,
        0 < rotation < n,
    ensures
        player_at((turn + rotation) % n, rotation, n, n - 1) == turn,
{
    lemma_player_at_shift(turn, rotation, n, n - 1);
    assert(n * rotation == rotation * n) by (nonlinear_arith);
    lemma_mod_multiples_vanish(rotation, turn, n);
    lemma_small_mod(turn as nat, n as nat);
}

proof fn lemma_player_at_injective(turn: int, rotation: int, n: int, k: int)
    requires
        0 <= turn < n,
        1 <= k < n,
        1 <= rotation < n,
        rotation == 1 || rotation + 1 == n,
    ensures
        player_at(turn, rotation, n, k) != turn,
{
    if rotation == 1 {
        assert(k * 1 == k);
        if turn + k < n {
            lemma_small_mod((turn + k) as nat, n as nat);
        } else {
            lemma_mod_multiples_vanish(1, turn + k - n, n);
            lemma_small_mod((turn + k - n) as nat, n as nat);
        }
    } else {
        assert(k * rotation == n * k + (turn - k) - turn) by (nonlinear_arith)
            requires
                rotation == n - 1,
        ;
        lemma_mod_multiples_vanish(k, turn - k, n);
        if turn - k >= 0 {
            lemma_small_mod((turn - k) as nat, n as nat);
        } else {
            lemma_mod_multiples_vanish(1, turn - k, n);
            lemma_small_mod((turn - k + n) as nat, n as nat);
        }
    }
}

proof fn lemma_player_at_surjective(turn: int, rotation: int, n: int, target: int)
    requires
        0 <= turn < n,
        0 <= target < n,
        1 <= rotation < n,
        rotation == 1 || rotation + 1 == n,
    ensures
        exists|k: int| 0 <= k < n && player_at(turn, rotation, n, k) == target,
{
    if rotation == 1 {
        let k = if target >= turn { target - turn } else { target - turn + n };
        assert(k * 1 == k);
        if target >= turn {
            lemma_small_mod(target as nat, n as nat);
        } else {
            lemma_mod_multiples_vanish(1, target, n);
            lemma_small_mod(target as nat, n as nat);
        }
        assert(0 <= k < n && player_at(turn, rotation, n, k) == target);
    } else {
        let k = if turn >= target { turn - target } else { turn - target + n };
        assert(k * rotation == n * k + (turn - k) - turn) by (nonlinear_arith)
            requires
                rotation == n - 1,
        ;
        lemma_mod_multiples_vanish(k, turn - k, n);
        if turn >= target {
            lemma_small_mod(target as nat, n as nat);
        } else {
            lemma_mod_multiples_vanish(1, target - n, n);
            lemma_small_mod(target as nat, n as nat);
        }
        assert(0 <= k < n && player_at(turn, rotation, n, k) == target);
    }
}

/// Two multiples of the seat count lie at least a full trick apart.
proof fn lemma_multiple_gap(a: int, b: int, n: int)
    requires
        0 < n,
        a % n == 0,
        b % n == 0,
        a < b,
    ensures
        a + n <= b,
{
    vstd::arithmetic::div_mod::lemma_sub_mod_noop(b, a, n);
    lemma_small_mod(0nat, n as nat);
    vstd::arithmetic::div_mod::lemma_fundamental_div_mod(b - a, n);
    let q = (b - a) / n;
    assert(q >= 1) by (nonlinear_arith)
        requires
            b - a == q * n + ((b - a) % n) && (b - a) % n == 0 && b - a >= 1 && n >= 1,
    ;
    assert(q * n >= n) by (nonlinear_arith)
        requires
            q >= 1 && n >= 1,
    ;
}

/// How the trick phase and count advance when one card is played.
proof fn lemma_decrement_mod(n_remaining: int, n: int)
    requires
        1 <= n,
        1 <= n_remaining,
    ensures
        (n_remaining - 1) % n == if n_remaining % n > 0 { n_remaining % n - 1 } else { n - 1 },
        (n_remaining - 1) / n == if n_remaining % n > 0 { n_remaining / n } else { n_remaining / n
            - 1 },
{
    vstd::arithmetic::div_mod::lemma_fundamental_div_mod(n_remaining, n);
    lemma_mod_bound(n_remaining, n);
    let q = n_remaining / n;
    let r = n_remaining % n;
    if r > 0 {
        assert(n_remaining - 1 == q * n + (r - 1)) by (nonlinear_arith)
            requires
                n_remaining == n * q + r,
        ;
        vstd::arithmetic::div_mod::lemma_fundamental_div_mod_converse(n_remaining - 1, n, q, r
            - 1);
    } else {
        assert(n_remaining - 1 == (q - 1) * n + (n - 1)) by (nonlinear_arith)
            requires
                n_remaining == n * q + r && r == 0 && n >= 1,
        ;
        vstd::arithmetic::div_mod::lemma_fundamental_div_mod_converse(n_remaining - 1, n, q - 1, n
            - 1);
    }
}

/// Playing the canonical card of the mover keeps every hand size right for
/// the position one card smaller.
proof fn lemma_counts_after_play(hands: Seq<Cards>, turn: int, rotation: int, n_remaining: int,
    card_original: Cards)
    requires
        2 <= hands.len(),
        0 <= turn < hands.len(),
        1 <= rotation < hands.len(),
        rotation == 1 || rotation + 1 == hands.len(),
        1 <= n_remaining,
        counts_ok(hands, turn, rotation, n_remaining),
        single_card(card_original),
        card_original & hands[turn] == card_original,
    ensures
        counts_ok(hands.update(turn, hands[turn] ^ card_original), (turn + rotation) % (
        hands.len() as int), rotation, n_remaining - 1),
{
    let n = hands.len() as int;
    let q = n_remaining / n;
    let r = n_remaining % n;
    let hands2 = hands.update(turn, hands[turn] ^ card_original);
    let turn2 = (turn + rotation) % n;
    vstd::arithmetic::div_mod::lemma_fundamental_div_mod(n_remaining, n);
    lemma_mod_bound(n_remaining, n);
    lemma_mod_bound(turn + rotation, n);
    lemma_decrement_mod(n_remaining, n);
    let p = choose|p: u64| p < 64 && card_original == 1u64 << p;
    crate::counting::lemma_card_count_single(p);
    lemma_card_count_remove(hands[turn], card_original);
    let q2 = (n_remaining - 1) / n;
    let r2 = (n_remaining - 1) % n;
    lemma_player_at_zero(turn, rotation, n);
    if r == 0 {
        assert(q >= 1) by (nonlinear_arith)
            requires
                n_remaining == n * q + r && r == 0 && n_remaining >= 1 && n >= 1,
        ;
        assert(card_count(hands[turn]) == q);
    } else {
        assert(card_count(hands[player_at(turn, rotation, n, 0)]) == q + 1);
        assert(card_count(hands[turn]) == q + 1);
    }
    if r2 == 0 {
        // one play completes the trick: every seat now holds `q2` cards
        assert(r == 1 || n == 1);
        assert forall|p2: int| 0 <= p2 < n implies card_count(hands2[p2]) == q2 by {
            lemma_player_at_surjective(turn, rotation, n, p2);
            let k = choose|k: int| 0 <= k < n && player_at(turn, rotation, n, k) == p2;
            lemma_mod_bound(turn + k * rotation, n);
            if k == 0 {
                assert(p2 == turn);
                assert(card_count(hands2[p2]) == card_count(hands[turn]) - 1);
            } else {
                lemma_player_at_injective(turn, rotation, n, k);
                assert(p2 != turn);
                assert(card_count(hands[player_at(turn, rotation, n, k)]) == q + if k < r {
                    1int
                } else {
                    0int
                });
                assert(card_count(hands2[p2]) == card_count(hands[p2]));
            }
        }
    } else {
        assert forall|k: int| 0 <= k < n implies card_count(hands2[player_at(turn2, rotation, n,
            k)]) == q2 + if k < r2 { 1int } else { 0int } by {
            if k < n - 1 {
                lemma_player_at_shift(turn, rotation, n, k);
                lemma_player_at_injective(turn, rotation, n, k + 1);
                lemma_mod_bound(turn + (k + 1) * rotation, n);
                let p2 = player_at(turn, rotation, n, k + 1);
                assert(p2 != turn);
                if r == 0 {
                    assert(card_count(hands[p2]) == q);
                } else {
                    assert(card_count(hands[player_at(turn, rotation, n, k + 1)]) == q + if k + 1
                        < r {
                        1int
                    } else {
                        0int
                    });
                }
                assert(card_count(hands2[p2]) == card_count(hands[p2]));
            } else {
                lemma_player_at_wrap(turn, rotation, n);
                assert(player_at(turn2, rotation, n, k) == turn);
                assert(card_count(hands2[turn]) == card_count(hands[turn]) - 1);
            }
        }
    }
}

proof fn lemma_pics_in_frame(v1: Seq<Cards>, v2: Seq<Cards>, lo: int, hi: int)
    requires
        forall|i: int| lo <= i < hi ==> v1[i] == v2[i],
    ensures
        pics_in(v1, lo, hi) == pics_in(v2, lo, hi),
    decreases hi - lo,
{
    if lo < hi {
        lemma_pics_in_frame(v1, v2, lo + 1, hi);
    }
}

proof fn lemma_pics_in_snoc(v: Seq<Cards>, lo: int, hi: int)
    requires
        lo < hi,
    ensures
        pics_in(v, lo, hi) == pics_in(v, lo, hi - 1) + pics(v[hi - 1]),
    decreases hi - lo,
{
    if lo < hi - 1 {
        lemma_pics_in_snoc(v, lo + 1, hi);
        assert(pics_in(v, lo, hi) == pics(v[lo]) + pics_in(v, lo + 1, hi));
        assert(pics_in(v, lo, hi - 1) == pics(v[lo]) + pics_in(v, lo + 1, hi - 1));
    } else {
        assert(pics_in(v, lo + 1, hi) == 0);
        assert(pics_in(v, lo, hi - 1) == 0);
    }
}

/// The pictures of a completed trick's merged set stay within the pictures
/// of its variation slots.
proof fn lemma_fold_pics(v: Seq<Cards>, lo: int, hi: int)
    requires
        0 <= lo <= hi <= v.len(),
    ensures
        card_count(or_fold(v.subrange(lo, hi)) & ALL_PICTURES) <= pics_in(v, lo, hi),
    decreases hi - lo,
{
    if lo == hi {
        crate::trick::lemma_zero_mask(ALL_PICTURES);
    } else {
        lemma_fold_pics(v, lo, hi - 1);
        lemma_pics_in_snoc(v, lo, hi);
        let sub = v.subrange(lo, hi);
        assert(sub.drop_last() =~= v.subrange(lo, hi - 1));
        let a = or_fold(v.subrange(lo, hi - 1));
        let b = v[hi - 1];
        assert((a | b) & ALL_PICTURES == (a & ALL_PICTURES) | (b & ALL_PICTURES)) by (bit_vector);
        lemma_card_count_or_le(a & ALL_PICTURES, b & ALL_PICTURES);
    }
}

proof fn lemma_hands_pics_update(hands: Seq<Cards>, target: int, x: Cards, from: int)
    requires
        0 <= from <= hands.len(),
        0 <= target < hands.len(),
    ensures
        hands_pics(hands.update(target, x), from) == if target >= from {
            hands_pics(hands, from) - pics(hands[target]) + pics(x)
        } else {
            hands_pics(hands, from) as int
        },
    decreases hands.len() - from,
{
    if from < hands.len() {
        lemma_hands_pics_update(hands, target, x, from + 1);
    }
}

/// Removing a subset of a hand removes exactly its picture points.
proof fn lemma_pics_remove(hand: Cards, sub: Cards)
    requires
        sub & hand == sub,
    ensures
        pics(hand ^ sub) == pics(hand) - pics(sub),
        pics(sub) <= pics(hand),
{
    assert((hand ^ sub) & ALL_PICTURES == (hand & ALL_PICTURES) ^ (sub & ALL_PICTURES) && (sub
        & ALL_PICTURES) & (hand & ALL_PICTURES) == (sub & ALL_PICTURES)) by (bit_vector)
        requires
            sub & hand == sub,
    ;
    lemma_card_count_remove(hand & ALL_PICTURES, sub & ALL_PICTURES);
}

/// The game value reads no variation slot below the count of remaining
/// cards: two buffers that agree from there on give the same value.
proof fn lemma_solve_camp_frame(hands: Seq<Cards>, napoleon: int, adjutant: int, turn: int,
    rotation: int, v1: Seq<Cards>, v2: Seq<Cards>, n_remaining: int, trump: Suit, contract: int,
    declarer: int, defender: int)
    requires
        2 <= hands.len(),
        0 <= turn < hands.len(),
        v1.len() == v2.len(),
        (v1.len() as int) % (hands.len() as int) == 0,
        0 <= n_remaining <= v1.len(),
        forall|i: int| n_remaining <= i < v1.len() ==> v1[i] == v2[i],
    ensures
        solve_camp(hands, napoleon, adjutant, turn, rotation, v1, n_remaining, trump, contract,
            declarer, defender) == solve_camp(hands, napoleon, adjutant, turn, rotation, v2,
            n_remaining, trump, contract, declarer, defender),
    decreases n_remaining, 3int,
{
    let n = hands.len() as int;
    let r = n_remaining % n;
    if r == 0 && n_remaining < v1.len() {
        lemma_multiple_gap(n_remaining, v1.len() as int, n);
        assert(v1.subrange(n_remaining, n_remaining + n) =~= v2.subrange(n_remaining, n_remaining
            + n));
        let trick = v1.subrange(n_remaining, n_remaining + n);
        let field = or_fold(trick);
        let n_pictures = card_count(field & ALL_PICTURES) as int;
        let taker_turn = (turn + spec_trick_taker(trick, trump, spec_is_first_trick(n_remaining,
            n)) * rotation) % n;
        let to_declarer = taker_turn == napoleon || taker_turn == adjutant;
        let declarer2 = if to_declarer { declarer + n_pictures } else { declarer };
        let defender2 = if to_declarer { defender } else { defender + n_pictures };
        let winner = spec_judge(contract, declarer2, defender2);
        if winner == Camp::UNSETTLED && n_remaining != n {
            let rotation2 = if card_count(field & spec_reversing_jacks(trump)) == 1 {
                n - rotation
            } else {
                rotation
            };
            lemma_mod_bound(turn + spec_trick_taker(trick, trump, spec_is_first_trick(
                n_remaining, n)) * rotation, n);
            lemma_interior_camp_frame(hands, napoleon, adjutant, taker_turn, rotation2, v1, v2,
                n_remaining, trump, contract, declarer2, defender2);
        }
    } else {
        lemma_interior_camp_frame(hands, napoleon, adjutant, turn, rotation, v1, v2, n_remaining,
            trump, contract, declarer, defender);
    }
}

#[verifier::rlimit(80)]
proof fn lemma_interior_camp_frame(hands: Seq<Cards>, napoleon: int, adjutant: int, turn: int,
    rotation: int, v1: Seq<Cards>, v2: Seq<Cards>, n_remaining: int, trump: Suit, contract: int,
    declarer: int, defender: int)
    requires
        2 <= hands.len(),
        0 <= turn < hands.len(),
        v1.len() == v2.len(),
        (v1.len() as int) % (hands.len() as int) == 0,
        0 <= n_remaining <= v1.len(),
        forall|i: int| n_remaining <= i < v1.len() ==> v1[i] == v2[i],
    ensures
        interior_camp(hands, napoleon, adjutant, turn, rotation, v1, n_remaining, trump, contract,
            declarer, defender) == interior_camp(hands, napoleon, adjutant, turn, rotation, v2,
            n_remaining, trump, contract, declarer, defender),
    decreases n_remaining, 2int,
{
    let n = hands.len() as int;
    if n_remaining >= 1 {
        let r = n_remaining % n;
        lemma_mod_bound(n_remaining, n);
        if r > 0 {
            // the lead slot lies inside the shared range
            vstd::arithmetic::div_mod::lemma_fundamental_div_mod(n_remaining, n);
            let base = n_remaining - r;
            assert(base == n * (n_remaining / n));
            lemma_mod_multiples_vanish(n_remaining / n, 0, n);
            lemma_small_mod(0nat, n as nat);
            assert(base % n == 0);
            lemma_multiple_gap(base, v1.len() as int, n);
            assert(v1[n_remaining - r + n - 1] == v2[n_remaining - r + n - 1]);
        }
        assert(spec_lead(v1, n_remaining, n) == spec_lead(v2, n_remaining, n));
        let choice = spec_available_cards(hands[turn], spec_lead(v1, n_remaining, n));
        lemma_winning_in_frame(hands, napoleon, adjutant, turn, rotation, v1, v2, n_remaining,
            trump, contract, declarer, defender, choice);
    }
}

proof fn lemma_winning_in_frame(hands: Seq<Cards>, napoleon: int, adjutant: int, turn: int,
    rotation: int, v1: Seq<Cards>, v2: Seq<Cards>, n_remaining: int, trump: Suit, contract: int,
    declarer: int, defender: int, choice: Cards)
    requires
        2 <= hands.len(),
        0 <= turn < hands.len(),
        v1.len() == v2.len(),
        (v1.len() as int) % (hands.len() as int) == 0,
        0 <= n_remaining <= v1.len(),
        forall|i: int| n_remaining <= i < v1.len() ==> v1[i] == v2[i],
    ensures
        winning_in(hands, napoleon, adjutant, turn, rotation, v1, n_remaining, trump, contract,
            declarer, defender, choice) == winning_in(hands, napoleon, adjutant, turn, rotation,
            v2, n_remaining, trump, contract, declarer, defender, choice),
    decreases n_remaining, 1int, choice,
{
    if n_remaining >= 1 && choice != 0 {
        let card = choice & !((choice - 1) as u64);
        lemma_winning_in_decreases(choice);
        lemma_child_camp_frame(hands, napoleon, adjutant, turn, rotation, v1, v2, n_remaining,
            trump, contract, declarer, defender, card);
        lemma_winning_in_frame(hands, napoleon, adjutant, turn, rotation, v1, v2, n_remaining,
            trump, contract, declarer, defender, choice ^ card);
    }
}

/// Clearing the lowest set bit strictly shrinks the candidate set.
pub proof fn lemma_winning_in_decreases(choice: Cards)
    requires
        choice != 0,
    ensures
        (choice ^ (choice & !((choice - 1) as u64))) < choice,
{
    assert((choice ^ (choice & !((choice - 1) as u64))) < choice) by (bit_vector)
        requires
            choice != 0,
    ;
}

#[via_fn]
proof fn winning_in_decreases_check(hands: Seq<Cards>, napoleon: int, adjutant: int, turn: int,
    rotation: int, variation: Seq<Cards>, n_remaining: int, trump: Suit, contract: int,
    declarer: int, defender: int, choice: Cards) {
    if !(n_remaining < 1 || choice == 0) {
        lemma_winning_in_decreases(choice);
    }
}

proof fn lemma_child_camp_frame(hands: Seq<Cards>, napoleon: int, adjutant: int, turn: int,
    rotation: int, v1: Seq<Cards>, v2: Seq<Cards>, n_remaining: int, trump: Suit, contract: int,
    declarer: int, defender: int, card: Cards)
    requires
        2 <= hands.len(),
        0 <= turn < hands.len(),
        v1.len() == v2.len(),
        (v1.len() as int) % (hands.len() as int) == 0,
        0 <= n_remaining <= v1.len(),
        forall|i: int| n_remaining <= i < v1.len() ==> v1[i] == v2[i],
    ensures
        child_camp(hands, napoleon, adjutant, turn, rotation, v1, n_remaining, trump, contract,
            declarer, defender, card) == child_camp(hands, napoleon, adjutant, turn, rotation,
            v2, n_remaining, trump, contract, declarer, defender, card),
    decreases n_remaining, 0int,
{
    if n_remaining >= 1 {
        let w1 = v1.update(n_remaining - 1, card);
        let w2 = v2.update(n_remaining - 1, card);
        assert(w1.len() == v1.len() && w2.len() == v2.len());
        assert(forall|i: int| n_remaining - 1 <= i < w1.len() ==> w1[i] == w2[i]);
        let n = hands.len() as int;
        let hands2 = hands.update(turn, hands[turn] ^ canonical_of(card));
        assert(hands2.len() == hands.len());
        lemma_mod_bound(turn + rotation, n);
        lemma_solve_camp_frame(hands2, napoleon, adjutant, (turn + rotation) % n, rotation, w1,
            w2, n_remaining - 1, trump, contract, declarer, defender);
    }
}

} // verus!
