//! Position and move evaluators: pure, deterministic integer heuristics.
//!
//! The position score combines hand strength, control cards, hand shape and a
//! greedy lower bound on turns to win.  The control component is a whole
//! number of hundredths (count of "2"s, 0.7 per "A", 2.0 per four-of-a-kind),
//! so it is carried as an integer scaled by 100 throughout.

use vstd::prelude::*;
use crate::cards::{Card, card_ord, card_value, cnt_ord, lemma_cnt_ord_le_len, rank_counts,
    remove_cards, remove_combo_cards};
use crate::combo::{Combo, ComboType, ComboV};

verus! {

/// Hands larger than this are rejected up front so that every score fits
/// comfortably in an `i64`.
pub const MAX_HAND: usize = 0x7fff_ffff;

/// Number of ordinals below `v` that the hand holds exactly `k` times.
pub open spec fn ranks_exactly(s: Seq<Card>, k: nat, v: int) -> int
    decreases v,
{
    if v <= 0 {
        0
    } else {
        ranks_exactly(s, k, v - 1) + if cnt_ord(s, (v - 1) as u8) == k {
            1int
        } else {
            0int
        }
    }
}

pub proof fn lemma_ranks_exactly_bounds(s: Seq<Card>, k: nat, v: int)
    ensures
        0 <= ranks_exactly(s, k, v),
        ranks_exactly(s, k, v) <= if v >= 0 {
            v
        } else {
            0
        },
    decreases v,
{
    if v > 0 {
        lemma_ranks_exactly_bounds(s, k, v - 1);
    }
}

/// A positive exact-count tally means some ordinal below `v` has exactly
/// that count, and conversely.
pub proof fn lemma_ranks_exactly_witness(s: Seq<Card>, k: nat, v: int)
    requires
        v <= 16,
    ensures
        (ranks_exactly(s, k, v) >= 1) <==> (exists|w: u8|
            w < v && #[trigger] cnt_ord(s, w) == k),
    decreases v,
{
    lemma_ranks_exactly_bounds(s, k, v);
    if v > 0 {
        lemma_ranks_exactly_witness(s, k, v - 1);
        lemma_ranks_exactly_bounds(s, k, v - 1);
        if cnt_ord(s, (v - 1) as u8) == k {
            assert(((v - 1) as u8) < v && cnt_ord(s, (v - 1) as u8) == k);
        } else {
            if ranks_exactly(s, k, v) >= 1 {
                assert(ranks_exactly(s, k, v - 1) >= 1);
            }
            if exists|w: u8| w < v && #[trigger] cnt_ord(s, w) == k {
                let w = choose|w: u8| w < v && #[trigger] cnt_ord(s, w) == k;
                assert(w < v - 1 || w == (v - 1) as u8);
            }
        }
    }
}

/// Strength: 3x(ordinal-10) for every card K or higher, plus 50 per
/// four-of-a-kind rank.
pub open spec fn spec_hand_strength(s: Seq<Card>) -> int {
    9 * cnt_ord(s, 13) + 12 * cnt_ord(s, 14) + 15 * cnt_ord(s, 15) + 50 * ranks_exactly(s, 4, 16)
}

/// Controls scaled by 100: one per "2", 0.7 per "A", 2.0 per four-of-a-kind
/// rank.
pub open spec fn spec_controls_x100(s: Seq<Card>) -> int {
    100 * cnt_ord(s, 15) + 70 * cnt_ord(s, 14) + 200 * ranks_exactly(s, 4, 16)
}

/// A rank ordinal takes part in a run when it lies in 3..14 (rank "2" never
/// runs) and the hand holds it.
pub open spec fn held(s: Seq<Card>, v: int) -> bool {
    3 <= v <= 14 && cnt_ord(s, v as u8) >= 1
}

/// Length of the run of consecutively held ordinals that ends at `v`.
pub open spec fn run_len_ending(s: Seq<Card>, v: int) -> int
    decreases
            if v >= 0 {
                v
            } else {
                0
            },
{
    if !held(s, v) {
        0
    } else {
        1 + run_len_ending(s, v - 1)
    }
}

pub proof fn lemma_run_len_bounds(s: Seq<Card>, v: int)
    ensures
        0 <= run_len_ending(s, v) <= 12,
    decreases
            if v >= 0 {
                v
            } else {
                0
            },
{
    if held(s, v) {
        lemma_run_len_bounds(s, v - 1);
        lemma_run_len_le(s, v);
    }
}

proof fn lemma_run_len_le(s: Seq<Card>, v: int)
    ensures
        run_len_ending(s, v) <= if v >= 2 {
            v - 2
        } else {
            0
        },
    decreases
            if v >= 0 {
                v
            } else {
                0
            },
{
    if held(s, v) {
        lemma_run_len_le(s, v - 1);
    }
}

/// Bonus collected at every break position `w < v`: a run that just ended
/// before `w` and reached length 4 or more earns twice its length.
pub open spec fn run_bonus_up(s: Seq<Card>, v: int) -> int
    decreases v,
{
    if v <= 0 {
        0
    } else {
        run_bonus_up(s, v - 1) + if !held(s, v - 1) && run_len_ending(s, v - 2) >= 4 {
            2 * run_len_ending(s, v - 2)
        } else {
            0int
        }
    }
}

pub proof fn lemma_run_bonus_bounds(s: Seq<Card>, v: int)
    ensures
        0 <= run_bonus_up(s, v),
        run_bonus_up(s, v) <= if v >= 0 {
            24 * v
        } else {
            0
        },
    decreases v,
{
    if v > 0 {
        lemma_run_bonus_bounds(s, v - 1);
        lemma_run_len_bounds(s, v - 2);
    }
}

/// Shape: -5 per rank held once, +3 per pair, +5 per triple, plus twice the
/// length of each maximal run of at least 4 consecutive held ordinals.
pub open spec fn spec_shape_score(s: Seq<Card>) -> int {
    -5 * ranks_exactly(s, 1, 16) + 3 * ranks_exactly(s, 2, 16) + 5 * ranks_exactly(s, 3, 16)
        + run_bonus_up(s, 16)
}

/// Greedy turns to shed `c` cards of one rank: a four-of-a-kind is one bomb
/// turn; otherwise one turn for a triple, then one for a pair, then one per
/// leftover card.
pub open spec fn turns_for_count(c: nat) -> int {
    if c == 4 {
        1
    } else {
        let after_triple: nat = if c >= 3 {
            (c - 3) as nat
        } else {
            c
        };
        let t1: int = if c >= 3 {
            1
        } else {
            0
        };
        let t2: int = if after_triple >= 2 {
            1
        } else {
            0
        };
        let rest: int = if after_triple >= 2 {
            after_triple - 2
        } else {
            after_triple as int
        };
        t1 + t2 + rest
    }
}

pub proof fn lemma_turns_for_count_bounds(c: nat)
    ensures
        0 <= turns_for_count(c) <= c,
        c > 0 ==> turns_for_count(c) >= 1,
{
}

/// Greedy turn total over all ordinals below `v`.
pub open spec fn total_turns(s: Seq<Card>, v: int) -> int
    decreases v,
{
    if v <= 0 {
        0
    } else {
        total_turns(s, v - 1) + turns_for_count(cnt_ord(s, (v - 1) as u8))
    }
}

pub proof fn lemma_total_turns_bounds(s: Seq<Card>, v: int)
    ensures
        0 <= total_turns(s, v),
        total_turns(s, v) <= if v >= 0 {
            v * s.len()
        } else {
            0
        },
    decreases v,
{
    if v > 0 {
        lemma_total_turns_bounds(s, v - 1);
        lemma_turns_for_count_bounds(cnt_ord(s, (v - 1) as u8));
        lemma_cnt_ord_le_len(s, (v - 1) as u8);
        assert((v - 1) * s.len() + s.len() == v * s.len()) by (nonlinear_arith);
    }
}

/// Lower bound on turns to win: the greedy total, floored by ceil(size/5),
/// and 0 for an empty hand.
pub open spec fn spec_turns_to_win(s: Seq<Card>) -> int {
    if s.len() == 0 {
        0
    } else {
        let greedy = total_turns(s, 16);
        let floor5 = (s.len() + 4) as int / 5;
        if greedy >= floor5 {
            greedy
        } else {
            floor5
        }
    }
}

/// The position score of a single hand in isolation.
pub open spec fn spec_evaluate_position(s: Seq<Card>) -> int {
    10 * spec_hand_strength(s) - 50 * s.len() + spec_controls_x100(s) + 20 * spec_shape_score(s)
        - 200 * spec_turns_to_win(s)
}

/// Counts the ordinals held exactly `k` times, from a count table.
fn count_ranks_exactly(counts: &Vec<usize>, k: usize, Ghost(s): Ghost<Seq<Card>>) -> (r: usize)
    requires
        counts@.len() == 16,
        forall|v: u8| v < 16 ==> counts@[v as int] == cnt_ord(s, v),
    ensures
        r == ranks_exactly(s, k as nat, 16),
        r <= 16,
{
    let mut r: usize = 0;
    let mut v: usize = 0;
    while v < 16
        invariant
            counts@.len() == 16,
            forall|w: u8| w < 16 ==> counts@[w as int] == cnt_ord(s, w),
            v <= 16,
            r == ranks_exactly(s, k as nat, v as int),
            r <= v,
        decreases 16 - v,
    {
        if counts[v] == k {
            r = r + 1;
        }
        v = v + 1;
    }
    r
}

/// Overall hand strength.
pub fn evaluate_hand_strength(hand: &Vec<Card>) -> (r: i64)
    requires
        hand@.len() <= MAX_HAND,
    ensures
        r == spec_hand_strength(hand@),
{
    let counts = rank_counts(hand);
    proof {
        lemma_cnt_ord_le_len(hand@, 13);
        lemma_cnt_ord_le_len(hand@, 14);
        lemma_cnt_ord_le_len(hand@, 15);
    }
    let bombs = count_ranks_exactly(&counts, 4, Ghost(hand@));
    9 * (counts[13] as i64) + 12 * (counts[14] as i64) + 15 * (counts[15] as i64) + 50 * (
    bombs as i64)
}

/// Control cards, scaled by 100.
pub fn count_controls_x100(hand: &Vec<Card>) -> (r: i64)
    requires
        hand@.len() <= MAX_HAND,
    ensures
        r == spec_controls_x100(hand@),
{
    let counts = rank_counts(hand);
    proof {
        lemma_cnt_ord_le_len(hand@, 14);
        lemma_cnt_ord_le_len(hand@, 15);
    }
    let bombs = count_ranks_exactly(&counts, 4, Ghost(hand@));
    100 * (counts[15] as i64) + 70 * (counts[14] as i64) + 200 * (bombs as i64)
}

/// Shape score of a hand.
pub fn analyze_hand_shape(hand: &Vec<Card>) -> (r: i64)
    requires
        hand@.len() <= MAX_HAND,
    ensures
        r == spec_shape_score(hand@),
{
    let counts = rank_counts(hand);
    let singles = count_ranks_exactly(&counts, 1, Ghost(hand@));
    let pairs = count_ranks_exactly(&counts, 2, Ghost(hand@));
    let triples = count_ranks_exactly(&counts, 3, Ghost(hand@));
    let ghost s = hand@;
    let mut bonus: i64 = 0;
    let mut run: i64 = 0;
    let mut v: usize = 0;
    while v < 16
        invariant
            counts@.len() == 16,
            forall|w: u8| w < 16 ==> counts@[w as int] == cnt_ord(s, w),
            v <= 16,
            run == run_len_ending(s, v as int - 1),
            bonus == run_bonus_up(s, v as int),
            0 <= run <= 12,
            0 <= bonus <= 24 * 16,
        decreases 16 - v,
    {
        let is_held = 3 <= v && v <= 14 && counts[v] >= 1;
        proof {
            assert(is_held == held(s, v as int));
        }
        if is_held {
            run = run + 1;
            proof {
                lemma_run_len_bounds(s, v as int);
            }
        } else {
            if run >= 4 {
                bonus = bonus + 2 * run;
            }
            run = 0;
        }
        proof {
            lemma_run_bonus_bounds(s, v as int + 1);
        }
        v = v + 1;
    }
    -5 * (singles as i64) + 3 * (pairs as i64) + 5 * (triples as i64) + bonus
}

/// Greedy lower bound on the turns needed to shed the whole hand.
pub fn estimate_turns_to_win(hand: &Vec<Card>) -> (r: i64)
    requires
        hand@.len() <= MAX_HAND,
    ensures
        r == spec_turns_to_win(hand@),
{
    if hand.len() == 0 {
        return 0;
    }
    let counts = rank_counts(hand);
    let ghost s = hand@;
    let mut greedy: i64 = 0;
    let mut v: usize = 0;
    while v < 16
        invariant
            counts@.len() == 16,
            forall|w: u8| w < 16 ==> counts@[w as int] == cnt_ord(s, w),
            s.len() <= MAX_HAND,
            v <= 16,
            greedy == total_turns(s, v as int),
            0 <= greedy <= v * s.len(),
        decreases 16 - v,
    {
        let c = counts[v];
        proof {
            lemma_cnt_ord_le_len(s, v as u8);
            lemma_turns_for_count_bounds(cnt_ord(s, v as u8));
            lemma_total_turns_bounds(s, v as int + 1);
        }
        let t: i64 = if c == 4 {
            1
        } else {
            let mut c2 = c;
            let mut t0: i64 = 0;
            if c2 >= 3 {
                t0 = t0 + 1;
                c2 = c2 - 3;
            }
            if c2 >= 2 {
                t0 = t0 + 1;
                c2 = c2 - 2;
            }
            t0 + (c2 as i64)
        };
        proof {
            assert(t == turns_for_count(cnt_ord(s, v as u8)));
            assert(t <= s.len());
            assert(greedy + t <= (v as int + 1) * s.len()) by (nonlinear_arith)
                requires
                    greedy <= v as int * s.len(),
                    t <= s.len(),
            ;
            assert((v as int + 1) * s.len() <= 16 * (MAX_HAND as int)) by (nonlinear_arith)
                requires
                    v < 16,
                    s.len() <= MAX_HAND,
            ;
        }
        greedy = greedy + t;
        v = v + 1;
    }
    let floor5: i64 = ((hand.len() + 4) / 5) as i64;
    if greedy >= floor5 {
        greedy
    } else {
        floor5
    }
}

/// The position score of a hand: strength, card count, controls, shape and
/// turns to win combined.  An empty hand scores 0.
pub fn evaluate_position_with_hand(hand: &Vec<Card>) -> (r: i64)
    requires
        hand@.len() <= MAX_HAND,
    ensures
        r == spec_evaluate_position(hand@),
{
    proof {
        lemma_eval_position_bounds(hand@);
    }
    let strength = evaluate_hand_strength(hand);
    let controls = count_controls_x100(hand);
    let shape = analyze_hand_shape(hand);
    let turns = estimate_turns_to_win(hand);
    10 * strength - 50 * (hand.len() as i64) + controls + 20 * shape - 200 * turns
}

/// The position score of an empty hand is 0: every component vanishes on an
/// empty hand.
pub proof fn lemma_evaluate_position_empty()
    ensures
        spec_evaluate_position(Seq::<Card>::empty()) == 0,
{
    lemma_components_zero_on_empty(16);
}

proof fn lemma_components_zero_on_empty(v: int)
    ensures
        ranks_exactly(Seq::<Card>::empty(), 1, v) == 0,
        ranks_exactly(Seq::<Card>::empty(), 2, v) == 0,
        ranks_exactly(Seq::<Card>::empty(), 3, v) == 0,
        ranks_exactly(Seq::<Card>::empty(), 4, v) == 0,
        run_bonus_up(Seq::<Card>::empty(), v) == 0,
        total_turns(Seq::<Card>::empty(), v) == 0,
    decreases
            if v >= 0 {
                v
            } else {
                0
            },
{
    if v > 0 {
        lemma_components_zero_on_empty(v - 1);
    }
}

/// Shape value a combo's removal is judged by: 3 per pair, 5 per triple.
pub open spec fn pair_triple_shape(s: Seq<Card>) -> int {
    3 * ranks_exactly(s, 2, 16) + 5 * ranks_exactly(s, 3, 16)
}

/// Sum of the rank ordinals of a card list.
pub open spec fn sum_ord(cards: Seq<Card>) -> int
    decreases cards.len(),
{
    if cards.len() == 0 {
        0
    } else {
        sum_ord(cards.drop_last()) + card_ord(cards.last())
    }
}

pub proof fn lemma_sum_ord_bounds(cards: Seq<Card>)
    ensures
        0 <= sum_ord(cards) <= 15 * cards.len(),
    decreases cards.len(),
{
    if cards.len() > 0 {
        lemma_sum_ord_bounds(cards.drop_last());
    }
}

/// The score of playing one combo out of a hand: PASS is a flat -50; any
/// other combo earns 30 when it is a single below rank 10, loses twice its
/// average rank, earns 10 per card shed, loses 15 per point of pair/triple
/// shape the removal destroys, and loses 200 for a bomb spent while the hand
/// still holds more than 10 cards.
pub open spec fn spec_evaluate_move(c: ComboV, hand: Seq<Card>) -> int {
    if c.combo_type == ComboType::Pass {
        -50
    } else {
        let single_bonus: int = if c.combo_type == ComboType::Single && c.lead_value < 10 {
            30
        } else {
            0
        };
        let avg: int = if c.cards.len() > 0 {
            sum_ord(c.cards) / c.cards.len() as int
        } else {
            0
        };
        let after = remove_cards(hand, c.cards);
        single_bonus - 2 * avg + 10 * c.cards.len() - 15 * (pair_triple_shape(hand)
            - pair_triple_shape(after)) + (if c.combo_type == ComboType::Bomb && hand.len() > 10 {
            -200int
        } else {
            0int
        })
    }
}

/// Scores one candidate move against the hand it is drawn from.  The combo to
/// beat does not change the score; it is part of the call shape only.
pub fn evaluate_move_with_hand(combo: &Combo, _last_combo: Option<&Combo>, hand: &Vec<Card>) -> (r:
    i64)
    requires
        hand@.len() <= MAX_HAND,
        combo@.cards.len() <= MAX_HAND,
    ensures
        r == spec_evaluate_move(combo@, hand@),
{
    if combo.combo_type == ComboType::Pass {
        return -50;
    }
    let single_bonus: i64 = if combo.combo_type == ComboType::Single && combo.lead_value < 10 {
        30
    } else {
        0
    };
    let n = combo.cards.len();
    let mut sum: i64 = 0;
    let mut i: usize = 0;
    while i < n
        invariant
            n == combo@.cards.len(),
            n <= MAX_HAND,
            i <= n,
            sum == sum_ord(combo@.cards.take(i as int)),
            0 <= sum <= 15 * i,
        decreases n - i,
    {
        let v = card_value(combo.cards[i].rank.as_str());
        proof {
            assert(combo@.cards.take(i + 1).drop_last() =~= combo@.cards.take(i as int));
            assert(combo@.cards.take(i + 1).last() == combo@.cards[i as int]);
        }
        sum = sum + (v as i64);
        i = i + 1;
    }
    proof {
        assert(combo@.cards.take(n as int) =~= combo@.cards);
    }
    let avg: i64 = if n > 0 {
        ((sum as u64) / (n as u64)) as i64
    } else {
        0
    };
    let after = remove_combo_cards(hand, &combo.cards);
    let counts_before = rank_counts(hand);
    let pairs_before = count_ranks_exactly(&counts_before, 2, Ghost(hand@));
    let triples_before = count_ranks_exactly(&counts_before, 3, Ghost(hand@));
    let counts_after = rank_counts(&after);
    let pairs_after = count_ranks_exactly(&counts_after, 2, Ghost(after@));
    let triples_after = count_ranks_exactly(&counts_after, 3, Ghost(after@));
    let shape_before: i64 = 3 * (pairs_before as i64) + 5 * (triples_before as i64);
    let shape_after: i64 = 3 * (pairs_after as i64) + 5 * (triples_after as i64);
    let bomb_penalty: i64 = if combo.combo_type == ComboType::Bomb && hand.len() > 10 {
        -200
    } else {
        0
    };
    single_bonus - 2 * avg + 10 * (n as i64) - 15 * (shape_before - shape_after) + bomb_penalty
}

/// A move score for a combo of at most 36 cards stays within +-4000.
pub proof fn lemma_evaluate_move_bound(c: ComboV, hand: Seq<Card>)
    requires
        c.cards.len() <= 36,
    ensures
        -4000 <= spec_evaluate_move(c, hand) <= 4000,
{
    if c.combo_type != ComboType::Pass {
        lemma_sum_ord_bounds(c.cards);
        if c.cards.len() > 0 {
            assert(0 <= sum_ord(c.cards) / c.cards.len() as int <= 15) by (nonlinear_arith)
                requires
                    0 <= sum_ord(c.cards) <= 15 * c.cards.len(),
                    1 <= c.cards.len(),
            ;
        }
        lemma_ranks_exactly_bounds(hand, 2, 16);
        lemma_ranks_exactly_bounds(hand, 3, 16);
        let after = remove_cards(hand, c.cards);
        lemma_ranks_exactly_bounds(after, 2, 16);
        lemma_ranks_exactly_bounds(after, 3, 16);
    }
}

/// Every component of the position score is comfortably inside `i64` range.
pub proof fn lemma_eval_position_bounds(s: Seq<Card>)
    requires
        s.len() <= MAX_HAND,
    ensures
        0 <= spec_hand_strength(s) <= 45 * s.len() + 800,
        0 <= spec_controls_x100(s) <= 170 * s.len() + 3200,
        -80 * 16 <= spec_shape_score(s) <= 8 * 16 + 24 * 16,
        0 <= spec_turns_to_win(s) <= 16 * s.len() + s.len(),
        -0x4000_0000_0000 <= spec_evaluate_position(s) <= 0x4000_0000_0000,
{
    lemma_cnt_ord_le_len(s, 13);
    lemma_cnt_ord_le_len(s, 14);
    lemma_cnt_ord_le_len(s, 15);
    lemma_ranks_exactly_bounds(s, 4, 16);
    lemma_ranks_exactly_bounds(s, 1, 16);
    lemma_ranks_exactly_bounds(s, 2, 16);
    lemma_ranks_exactly_bounds(s, 3, 16);
    lemma_run_bonus_bounds(s, 16);
    lemma_total_turns_bounds(s, 16);
    assert(16 * s.len() <= 16 * MAX_HAND) by (nonlinear_arith)
        requires
            s.len() <= MAX_HAND,
    ;
}

} // verus!
