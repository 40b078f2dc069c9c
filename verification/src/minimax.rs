//! Heuristic minimax search with alpha-beta pruning.
//!
//! Terminal positions score as the difference of the two hands' position
//! evaluations.  The AI (maximizing) enumerates its replies with the full
//! generator, the opponent (minimizing) with the bounded response estimator.
//! Each non-PASS AI move additionally earns a tactical bonus of three tenths
//! of its move score, folded into the searched value; the pruning windows are
//! shifted by the same bonus so cutoffs stay exact.  The searcher's contract
//! is the classical fail-soft window relation to the pruning-free value
//! `heur_value`; the root runs at a full window, so its value is exact and
//! its chosen move is the first reply attaining it, in generation order.

use vstd::prelude::*;
use crate::cards::{Card, lemma_remove_cards_le, remove_cards, remove_combo_cards};
use crate::combo::{Combo, ComboType, ComboV, combos_view, pass_combo};
use crate::estimate::{estimate_opponent_responses, lemma_estimate_nonempty, spec_estimate};
use crate::eval::{MAX_HAND, evaluate_move_with_hand, evaluate_position_with_hand,
    lemma_eval_position_bounds, lemma_evaluate_move_bound, spec_evaluate_move,
    spec_evaluate_position};
use crate::plays::{find_opponent_valid_plays, lemma_combos_view_push, lemma_generate_sound,
    lemma_generate_opening_nonempty, opt_view};
use crate::search::{km_ok, strict_is_terminal, strict_plays};

verus! {

/// The deepest search this engine accepts; a machine limit, not a rule of
/// the game.
pub const MAX_DEPTH: usize = 1048576;

/// Every tactical bonus lies strictly inside this cap.
pub open spec fn bonus_cap() -> int {
    4096
}

/// Admissible window magnitude at a given remaining depth: windows widen by
/// one bonus cap per ply above, so shifted child windows stay admissible.
pub open spec fn wlim(depth: int) -> int {
    0x2000_0000_0000_0000 + (1048576 - depth) * 4096
}

/// Magnitude bound on every heuristic value at a given remaining depth.
pub open spec fn vb(depth: int) -> int {
    0x8000_0000_0000 + depth * 4096
}

/// Three tenths of a move score, truncated toward zero.
pub open spec fn move_bonus(em: int) -> int {
    if em >= 0 {
        3 * em / 10
    } else {
        -(3 * (-em) / 10)
    }
}

pub proof fn lemma_move_bonus_bound(em: int)
    requires
        -4000 <= em <= 4000,
    ensures
        -1200 <= move_bonus(em) <= 1200,
{
    if em >= 0 {
        assert(3 * em / 10 <= 1200) by (nonlinear_arith)
            requires
                0 <= em <= 4000,
        ;
        assert(3 * em / 10 >= 0) by (nonlinear_arith)
            requires
                em >= 0,
        ;
    } else {
        assert(3 * (-em) / 10 <= 1200) by (nonlinear_arith)
            requires
                0 < -em <= 4000,
        ;
        assert(3 * (-em) / 10 >= 0) by (nonlinear_arith)
            requires
                -em > 0,
        ;
    }
}

/// The terminal score: the AI hand's worth less the opponent hand's worth.
pub open spec fn heur_terminal(ai: Seq<Card>, opp: Seq<Card>) -> int {
    spec_evaluate_position(ai) - spec_evaluate_position(opp)
}

/// The mover's reply list: the full generator (plus PASS under a constraint)
/// for the AI, the bounded estimator for the opponent.
pub open spec fn heur_plays(
    ai: Seq<Card>,
    opp: Seq<Card>,
    cons: Option<ComboV>,
    maxing: bool,
) -> Seq<ComboV> {
    if maxing {
        strict_plays(ai, cons)
    } else {
        spec_estimate(opp, cons)
    }
}

/// The searched value of one reply: PASS costs the mover a life point and
/// clears the constraint; any other combo leaves the mover's hand and
/// becomes the constraint.  A non-PASS AI move adds its tactical bonus.
pub open spec fn heur_play_value(
    ai: Seq<Card>,
    opp: Seq<Card>,
    ai_hp: int,
    opp_hp: int,
    depth: nat,
    maxing: bool,
    play: ComboV,
) -> int
    decreases depth, 0int, 0int,
{
    if depth == 0 {
        0
    } else if maxing {
        if play.combo_type == ComboType::Pass {
            heur_value(ai, opp, ai_hp - 1, opp_hp, None, (depth - 1) as nat, false)
        } else {
            heur_value(
                remove_cards(ai, play.cards),
                opp,
                ai_hp,
                opp_hp,
                Some(play),
                (depth - 1) as nat,
                false,
            ) + move_bonus(spec_evaluate_move(play, ai))
        }
    } else {
        if play.combo_type == ComboType::Pass {
            heur_value(ai, opp, ai_hp, opp_hp - 1, None, (depth - 1) as nat, true)
        } else {
            heur_value(
                ai,
                remove_cards(opp, play.cards),
                ai_hp,
                opp_hp,
                Some(play),
                (depth - 1) as nat,
                true,
            )
        }
    }
}

/// The extremum of the reply values from index `i` on: a maximum for the AI,
/// a minimum for the opponent.
pub open spec fn heur_fold(
    ai: Seq<Card>,
    opp: Seq<Card>,
    ai_hp: int,
    opp_hp: int,
    depth: nat,
    maxing: bool,
    plays: Seq<ComboV>,
    i: int,
) -> int
    decreases depth, 1int, plays.len() - i,
{
    if i < 0 || i >= plays.len() {
        0
    } else {
        let v = heur_play_value(ai, opp, ai_hp, opp_hp, depth, maxing, plays[i]);
        if i == plays.len() - 1 {
            v
        } else {
            let rest = heur_fold(ai, opp, ai_hp, opp_hp, depth, maxing, plays, i + 1);
            if maxing {
                if v >= rest {
                    v
                } else {
                    rest
                }
            } else {
                if v <= rest {
                    v
                } else {
                    rest
                }
            }
        }
    }
}

/// The pruning-free heuristic game value.
pub open spec fn heur_value(
    ai: Seq<Card>,
    opp: Seq<Card>,
    ai_hp: int,
    opp_hp: int,
    cons: Option<ComboV>,
    depth: nat,
    maxing: bool,
) -> int
    decreases depth, 2int, 0int,
{
    if strict_is_terminal(ai, opp, ai_hp, opp_hp, depth) {
        heur_terminal(ai, opp)
    } else {
        heur_fold(ai, opp, ai_hp, opp_hp, depth, maxing, heur_plays(ai, opp, cons, maxing), 0)
    }
}

/// The fold bounds every one of its elements.
proof fn lemma_heur_fold_covers(
    ai: Seq<Card>,
    opp: Seq<Card>,
    ai_hp: int,
    opp_hp: int,
    depth: nat,
    maxing: bool,
    plays: Seq<ComboV>,
    i: int,
    j: int,
)
    requires
        0 <= i <= j < plays.len(),
    ensures
        maxing ==> heur_fold(ai, opp, ai_hp, opp_hp, depth, maxing, plays, i) >= heur_play_value(
            ai,
            opp,
            ai_hp,
            opp_hp,
            depth,
            maxing,
            plays[j],
        ),
        !maxing ==> heur_fold(ai, opp, ai_hp, opp_hp, depth, maxing, plays, i) <= heur_play_value(
            ai,
            opp,
            ai_hp,
            opp_hp,
            depth,
            maxing,
            plays[j],
        ),
    decreases j - i,
{
    if i < j {
        lemma_heur_fold_covers(ai, opp, ai_hp, opp_hp, depth, maxing, plays, i + 1, j);
    }
}

/// Heuristic alpha-beta search with fail-hard cutoffs and bonus-shifted
/// child windows.  The result relates to the pruning-free value through the
/// window relation `km_ok` and stays within the depth's value bound.
pub(crate) fn heur_search(
    ai_hand: &Vec<Card>,
    opponent_hand: &Vec<Card>,
    ai_hp: i32,
    opponent_hp: i32,
    last_combo: Option<&Combo>,
    depth: usize,
    maxing: bool,
    alpha: i64,
    beta: i64,
) -> (r: i64)
    requires
        ai_hand@.len() <= MAX_HAND,
        opponent_hand@.len() <= MAX_HAND,
        depth <= MAX_DEPTH,
        -wlim(depth as int) <= alpha < beta <= wlim(depth as int),
    ensures
        -vb(depth as int) <= r <= vb(depth as int),
        strict_is_terminal(ai_hand@, opponent_hand@, ai_hp as int, opponent_hp as int, depth as nat)
            ==> r == heur_terminal(ai_hand@, opponent_hand@),
        km_ok(
            r as int,
            heur_value(
                ai_hand@,
                opponent_hand@,
                ai_hp as int,
                opponent_hp as int,
                opt_view(last_combo),
                depth as nat,
                maxing,
            ),
            alpha as int,
            beta as int,
        ),
    decreases depth,
{
    if depth == 0 || ai_hand.len() == 0 || opponent_hand.len() == 0 || ai_hp <= 0 || opponent_hp
        <= 0 {
        proof {
            lemma_eval_position_bounds(ai_hand@);
            lemma_eval_position_bounds(opponent_hand@);
        }
        let ea = evaluate_position_with_hand(ai_hand);
        let eo = evaluate_position_with_hand(opponent_hand);
        return ea - eo;
    }
    let ghost ai_s = ai_hand@;
    let ghost opp_s = opponent_hand@;
    let ghost cons = opt_view(last_combo);
    let ghost t = heur_value(
        ai_s,
        opp_s,
        ai_hp as int,
        opponent_hp as int,
        cons,
        depth as nat,
        maxing,
    );
    if maxing {
        let mut plays = find_opponent_valid_plays(ai_hand, last_combo);
        if last_combo.is_some() {
            let ghost pre = plays@;
            let pass = pass_combo();
            plays.push(pass);
            proof {
                lemma_combos_view_push(pre, pass);
            }
        }
        let ghost plays_v = combos_view(plays@);
        proof {
            assert(plays_v =~= heur_plays(ai_s, opp_s, cons, true));
            if last_combo.is_none() {
                lemma_generate_opening_nonempty(ai_s);
            }
            assert(plays_v.len() >= 1);
            assert(t == heur_fold(ai_s, opp_s, ai_hp as int, opponent_hp as int, depth as nat, true, plays_v, 0));
            lemma_generate_sound(ai_s, cons);
        }
        let n = plays.len();
        let mut best: i64 = -0x2800_0000_0000_0000;
        let mut a = alpha;
        let mut i: usize = 0;
        while i < n
            invariant
                ai_hand@.len() <= MAX_HAND,
                opponent_hand@.len() <= MAX_HAND,
                depth <= MAX_DEPTH,
                -wlim(depth as int) <= alpha < beta <= wlim(depth as int),
                n == plays@.len(),
                n >= 1,
                plays_v == combos_view(plays@),
                ai_s == ai_hand@,
                opp_s == opponent_hand@,
                ai_s.len() > 0,
                opp_s.len() > 0,
                depth >= 1,
                ai_hp >= 1,
                opponent_hp >= 1,
                maxing == true,
                cons == opt_view(last_combo),
                t == heur_value(
                    ai_s,
                    opp_s,
                    ai_hp as int,
                    opponent_hp as int,
                    cons,
                    depth as nat,
                    true,
                ),
                t == heur_fold(
                    ai_s,
                    opp_s,
                    ai_hp as int,
                    opponent_hp as int,
                    depth as nat,
                    true,
                    plays_v,
                    0,
                ),
                forall|j: int|
                    0 <= j < plays_v.len() ==> (#[trigger] plays_v[j]).cards.len() <= 36,
                i <= n,
                i == 0 ==> best == -0x2800_0000_0000_0000,
                i > 0 ==> -vb(depth as int) <= best <= vb(depth as int),
                best < beta,
                a == (if best > alpha {
                    best as int
                } else {
                    alpha as int
                }),
                a < beta,
                i > 0 ==> best <= (if alpha as int > t {
                    alpha as int
                } else {
                    t
                }),
                i < n ==> t <= (if best >= heur_fold(
                    ai_s,
                    opp_s,
                    ai_hp as int,
                    opponent_hp as int,
                    depth as nat,
                    true,
                    plays_v,
                    i as int,
                ) {
                    best as int
                } else {
                    heur_fold(
                        ai_s,
                        opp_s,
                        ai_hp as int,
                        opponent_hp as int,
                        depth as nat,
                        true,
                        plays_v,
                        i as int,
                    )
                }),
                i == n ==> t <= best,
            decreases n - i,
        {
            proof {
                assert(plays_v[i as int] == plays@[i as int]@);
            }
            let play = &plays[i];
            let is_pass = matches!(play.combo_type, ComboType::Pass);
            let bonus: i64;
            if is_pass {
                bonus = 0;
            } else {
                proof {
                    lemma_evaluate_move_bound(plays_v[i as int], ai_s);
                }
                let em = evaluate_move_with_hand(play, last_combo, ai_hand);
                if em >= 0 {
                    bonus = (((3 * em) as u64) / 10) as i64;
                } else {
                    bonus = -((((3 * (-em)) as u64) / 10) as i64);
                }
                proof {
                    assert(bonus == move_bonus(spec_evaluate_move(plays_v[i as int], ai_s)));
                    lemma_move_bonus_bound(spec_evaluate_move(plays_v[i as int], ai_s));
                }
            }
            let child_a = a - bonus;
            let child_b = beta - bonus;
            let v_child: i64;
            if is_pass {
                v_child = heur_search(
                    ai_hand,
                    opponent_hand,
                    ai_hp - 1,
                    opponent_hp,
                    None,
                    depth - 1,
                    false,
                    child_a,
                    child_b,
                );
            } else {
                let new_ai = remove_combo_cards(ai_hand, &play.cards);
                proof {
                    lemma_remove_cards_le(ai_s, plays_v[i as int].cards);
                }
                v_child = heur_search(
                    &new_ai,
                    opponent_hand,
                    ai_hp,
                    opponent_hp,
                    Some(play),
                    depth - 1,
                    false,
                    child_a,
                    child_b,
                );
            }
            let v = v_child + bonus;
            let ghost pv = heur_play_value(
                ai_s,
                opp_s,
                ai_hp as int,
                opponent_hp as int,
                depth as nat,
                true,
                plays_v[i as int],
            );
            proof {
                assert(km_ok(v as int, pv, a as int, beta as int));
                lemma_heur_fold_covers(
                    ai_s,
                    opp_s,
                    ai_hp as int,
                    opponent_hp as int,
                    depth as nat,
                    true,
                    plays_v,
                    0,
                    i as int,
                );
            }
            if v > best {
                best = v;
            }
            if best > a {
                a = best;
            }
            if a >= beta {
                proof {
                    assert(v as int >= beta);
                    assert(pv >= v as int);
                    assert(t >= pv);
                }
                return best;
            }
            i = i + 1;
        }
        best
    } else {
        let plays = estimate_opponent_responses(opponent_hand, last_combo);
        let ghost plays_v = combos_view(plays@);
        proof {
            assert(plays_v =~= heur_plays(ai_s, opp_s, cons, false));
            lemma_estimate_nonempty(opp_s, cons);
            assert(plays_v.len() >= 1);
            assert(t == heur_fold(ai_s, opp_s, ai_hp as int, opponent_hp as int, depth as nat, false, plays_v, 0));
        }
        let n = plays.len();
        let mut best: i64 = 0x2800_0000_0000_0000;
        let mut b = beta;
        let mut i: usize = 0;
        while i < n
            invariant
                ai_hand@.len() <= MAX_HAND,
                opponent_hand@.len() <= MAX_HAND,
                depth <= MAX_DEPTH,
                -wlim(depth as int) <= alpha < beta <= wlim(depth as int),
                n == plays@.len(),
                n >= 1,
                plays_v == combos_view(plays@),
                ai_s == ai_hand@,
                opp_s == opponent_hand@,
                ai_s.len() > 0,
                opp_s.len() > 0,
                depth >= 1,
                ai_hp >= 1,
                opponent_hp >= 1,
                maxing == false,
                cons == opt_view(last_combo),
                t == heur_value(
                    ai_s,
                    opp_s,
                    ai_hp as int,
                    opponent_hp as int,
                    cons,
                    depth as nat,
                    false,
                ),
                t == heur_fold(
                    ai_s,
                    opp_s,
                    ai_hp as int,
                    opponent_hp as int,
                    depth as nat,
                    false,
                    plays_v,
                    0,
                ),
                i <= n,
                i == 0 ==> best == 0x2800_0000_0000_0000,
                i > 0 ==> -vb(depth as int) <= best <= vb(depth as int),
                best > alpha,
                b == (if best < beta {
                    best as int
                } else {
                    beta as int
                }),
                b > alpha,
                i > 0 ==> best >= (if (beta as int) < t {
                    beta as int
                } else {
                    t
                }),
                i < n ==> t >= (if best <= heur_fold(
                    ai_s,
                    opp_s,
                    ai_hp as int,
                    opponent_hp as int,
                    depth as nat,
                    false,
                    plays_v,
                    i as int,
                ) {
                    best as int
                } else {
                    heur_fold(
                        ai_s,
                        opp_s,
                        ai_hp as int,
                        opponent_hp as int,
                        depth as nat,
                        false,
                        plays_v,
                        i as int,
                    )
                }),
                i == n ==> t >= best,
            decreases n - i,
        {
            proof {
                assert(plays_v[i as int] == plays@[i as int]@);
            }
            let play = &plays[i];
            let is_pass = matches!(play.combo_type, ComboType::Pass);
            let v: i64;
            if is_pass {
                v = heur_search(
                    ai_hand,
                    opponent_hand,
                    ai_hp,
                    opponent_hp - 1,
                    None,
                    depth - 1,
                    true,
                    alpha,
                    b,
                );
            } else {
                let new_opp = remove_combo_cards(opponent_hand, &play.cards);
                proof {
                    lemma_remove_cards_le(opp_s, plays_v[i as int].cards);
                }
                v = heur_search(
                    ai_hand,
                    &new_opp,
                    ai_hp,
                    opponent_hp,
                    Some(play),
                    depth - 1,
                    true,
                    alpha,
                    b,
                );
            }
            let ghost pv = heur_play_value(
                ai_s,
                opp_s,
                ai_hp as int,
                opponent_hp as int,
                depth as nat,
                false,
                plays_v[i as int],
            );
            proof {
                assert(km_ok(v as int, pv, alpha as int, b as int));
                lemma_heur_fold_covers(
                    ai_s,
                    opp_s,
                    ai_hp as int,
                    opponent_hp as int,
                    depth as nat,
                    false,
                    plays_v,
                    0,
                    i as int,
                );
            }
            if v < best {
                best = v;
            }
            if best < b {
                b = best;
            }
            if b <= alpha {
                proof {
                    assert(v as int <= alpha);
                    assert(pv <= v as int);
                    assert(t <= pv);
                }
                return best;
            }
            i = i + 1;
        }
        best
    }
}

/// Some reply attains the fold's extremum.
proof fn lemma_heur_fold_achieved(
    ai: Seq<Card>,
    opp: Seq<Card>,
    ai_hp: int,
    opp_hp: int,
    depth: nat,
    maxing: bool,
    plays: Seq<ComboV>,
    i: int,
)
    requires
        0 <= i < plays.len(),
    ensures
        exists|j: int|
            i <= j < plays.len() && heur_fold(ai, opp, ai_hp, opp_hp, depth, maxing, plays, i)
                == heur_play_value(ai, opp, ai_hp, opp_hp, depth, maxing, #[trigger] plays[j]),
    decreases plays.len() - i,
{
    if i == plays.len() - 1 {
        assert(heur_fold(ai, opp, ai_hp, opp_hp, depth, maxing, plays, i) == heur_play_value(
            ai,
            opp,
            ai_hp,
            opp_hp,
            depth,
            maxing,
            plays[i],
        ));
    } else {
        lemma_heur_fold_achieved(ai, opp, ai_hp, opp_hp, depth, maxing, plays, i + 1);
    }
}

/// The chosen reply is the first one, in generation order, whose searched
/// value attains the search value.
pub open spec fn chosen_first_max(
    ai: Seq<Card>,
    opp: Seq<Card>,
    ai_hp: int,
    opp_hp: int,
    depth: nat,
    plays: Seq<ComboV>,
    c: ComboV,
    val: int,
) -> bool {
    exists|k: int|
        0 <= k < plays.len() && #[trigger] plays[k] == c && heur_play_value(
            ai,
            opp,
            ai_hp,
            opp_hp,
            depth,
            true,
            plays[k],
        ) == val && (forall|j: int|
            0 <= j < k ==> heur_play_value(ai, opp, ai_hp, opp_hp, depth, true, #[trigger] plays[j])
                < val)
}

/// Chooses the AI's best move by heuristic minimax to the depth bound.
/// At a terminal state no move is returned and the value is the position
/// difference.  Otherwise the value is exactly the pruning-free heuristic
/// game value, and the move is the first generated reply attaining it.
pub fn minimax_search(
    ai_hand: &Vec<Card>,
    opponent_hand: &Vec<Card>,
    ai_hp: i32,
    opponent_hp: i32,
    last_combo: Option<&Combo>,
    depth: usize,
) -> (r: (Option<Combo>, i64))
    requires
        ai_hand@.len() <= MAX_HAND,
        opponent_hand@.len() <= MAX_HAND,
        depth <= MAX_DEPTH,
    ensures
        strict_is_terminal(ai_hand@, opponent_hand@, ai_hp as int, opponent_hp as int, depth as nat)
            ==> r.0 is None && r.1 == heur_terminal(ai_hand@, opponent_hand@),
        !strict_is_terminal(
            ai_hand@,
            opponent_hand@,
            ai_hp as int,
            opponent_hp as int,
            depth as nat,
        ) ==> {
            &&& r.1 == heur_value(
                ai_hand@,
                opponent_hand@,
                ai_hp as int,
                opponent_hp as int,
                opt_view(last_combo),
                depth as nat,
                true,
            )
            &&& match r.0 {
                Some(c) => chosen_first_max(
                    ai_hand@,
                    opponent_hand@,
                    ai_hp as int,
                    opponent_hp as int,
                    depth as nat,
                    strict_plays(ai_hand@, opt_view(last_combo)),
                    c@,
                    r.1 as int,
                ),
                None => false,
            }
        },
{
    if depth == 0 || ai_hand.len() == 0 || opponent_hand.len() == 0 || ai_hp <= 0 || opponent_hp
        <= 0 {
        proof {
            lemma_eval_position_bounds(ai_hand@);
            lemma_eval_position_bounds(opponent_hand@);
        }
        let ea = evaluate_position_with_hand(ai_hand);
        let eo = evaluate_position_with_hand(opponent_hand);
        return (None, ea - eo);
    }
    let ghost ai_s = ai_hand@;
    let ghost opp_s = opponent_hand@;
    let ghost cons = opt_view(last_combo);
    let ghost t = heur_value(
        ai_s,
        opp_s,
        ai_hp as int,
        opponent_hp as int,
        cons,
        depth as nat,
        true,
    );
    let mut plays = find_opponent_valid_plays(ai_hand, last_combo);
    if last_combo.is_some() {
        let ghost pre = plays@;
        let pass = pass_combo();
        plays.push(pass);
        proof {
            lemma_combos_view_push(pre, pass);
        }
    }
    let ghost plays_v = combos_view(plays@);
    proof {
        assert(plays_v =~= strict_plays(ai_s, cons));
        if last_combo.is_none() {
            lemma_generate_opening_nonempty(ai_s);
        }
        assert(plays_v.len() >= 1);
        assert(t == heur_fold(ai_s, opp_s, ai_hp as int, opponent_hp as int, depth as nat, true, plays_v, 0));
        lemma_generate_sound(ai_s, cons);
    }
    let n = plays.len();
    let mut best: i64 = -0x2800_0000_0000_0000;
    let mut chosen: Option<Combo> = None;
    let ghost mut kk: int = 0;
    let mut a: i64 = -0x2000_0000_0000_0000;
    let mut i: usize = 0;
    while i < n
        invariant
            ai_hand@.len() <= MAX_HAND,
            opponent_hand@.len() <= MAX_HAND,
            1 <= depth <= MAX_DEPTH,
            n == plays@.len(),
            n >= 1,
            plays_v == combos_view(plays@),
            ai_s == ai_hand@,
            opp_s == opponent_hand@,
            ai_s.len() > 0,
            opp_s.len() > 0,
            ai_hp >= 1,
            opponent_hp >= 1,
            cons == opt_view(last_combo),
            t == heur_value(
                ai_s,
                opp_s,
                ai_hp as int,
                opponent_hp as int,
                cons,
                depth as nat,
                true,
            ),
            t == heur_fold(
                ai_s,
                opp_s,
                ai_hp as int,
                opponent_hp as int,
                depth as nat,
                true,
                plays_v,
                0,
            ),
            forall|j: int| 0 <= j < plays_v.len() ==> (#[trigger] plays_v[j]).cards.len() <= 36,
            i <= n,
            i == 0 ==> best == -0x2800_0000_0000_0000 && chosen is None,
            a == (if best > -0x2000_0000_0000_0000i64 {
                best as int
            } else {
                -0x2000_0000_0000_0000
            }),
            i > 0 ==> {
                &&& -vb(depth as int) <= best <= vb(depth as int)
                &&& 0 <= kk < i
                &&& match chosen {
                    Some(c) => c@ == plays_v[kk],
                    None => false,
                }
                &&& heur_play_value(
                    ai_s,
                    opp_s,
                    ai_hp as int,
                    opponent_hp as int,
                    depth as nat,
                    true,
                    plays_v[kk],
                ) == best
                &&& forall|j: int|
                    0 <= j < kk ==> heur_play_value(
                        ai_s,
                        opp_s,
                        ai_hp as int,
                        opponent_hp as int,
                        depth as nat,
                        true,
                        #[trigger] plays_v[j],
                    ) < best
                &&& forall|j: int|
                    0 <= j < i ==> heur_play_value(
                        ai_s,
                        opp_s,
                        ai_hp as int,
                        opponent_hp as int,
                        depth as nat,
                        true,
                        #[trigger] plays_v[j],
                    ) <= best
            },
        decreases n - i,
    {
        proof {
            assert(plays_v[i as int] == plays@[i as int]@);
        }
        let play = &plays[i];
        let is_pass = matches!(play.combo_type, ComboType::Pass);
        let bonus: i64;
        if is_pass {
            bonus = 0;
        } else {
            proof {
                lemma_evaluate_move_bound(plays_v[i as int], ai_s);
            }
            let em = evaluate_move_with_hand(play, last_combo, ai_hand);
            if em >= 0 {
                bonus = (((3 * em) as u64) / 10) as i64;
            } else {
                bonus = -((((3 * (-em)) as u64) / 10) as i64);
            }
            proof {
                assert(bonus == move_bonus(spec_evaluate_move(plays_v[i as int], ai_s)));
                lemma_move_bonus_bound(spec_evaluate_move(plays_v[i as int], ai_s));
            }
        }
        let child_a = a - bonus;
        let child_b = 0x2000_0000_0000_0000i64 - bonus;
        let v_child: i64;
        if is_pass {
            v_child = heur_search(
                ai_hand,
                opponent_hand,
                ai_hp - 1,
                opponent_hp,
                None,
                depth - 1,
                false,
                child_a,
                child_b,
            );
        } else {
            let new_ai = remove_combo_cards(ai_hand, &play.cards);
            proof {
                lemma_remove_cards_le(ai_s, plays_v[i as int].cards);
            }
            v_child = heur_search(
                &new_ai,
                opponent_hand,
                ai_hp,
                opponent_hp,
                Some(play),
                depth - 1,
                false,
                child_a,
                child_b,
            );
        }
        let v = v_child + bonus;
        let ghost pv = heur_play_value(
            ai_s,
            opp_s,
            ai_hp as int,
            opponent_hp as int,
            depth as nat,
            true,
            plays_v[i as int],
        );
        proof {
            assert(km_ok(v as int, pv, a as int, 0x2000_0000_0000_0000));
            assert(v < 0x2000_0000_0000_0000);
            if v as int <= a as int {
                assert(pv <= v as int);
            } else {
                assert(v as int == pv);
            }
        }
        if v > best {
            best = v;
            chosen = Some(play.clone());
            proof {
                kk = i as int;
            }
        }
        if best > a {
            a = best;
        }
        i = i + 1;
    }
    proof {
        lemma_heur_fold_achieved(
            ai_s,
            opp_s,
            ai_hp as int,
            opponent_hp as int,
            depth as nat,
            true,
            plays_v,
            0,
        );
        let w = choose|j: int|
            0 <= j < plays_v.len() && heur_fold(
                ai_s,
                opp_s,
                ai_hp as int,
                opponent_hp as int,
                depth as nat,
                true,
                plays_v,
                0,
            ) == heur_play_value(
                ai_s,
                opp_s,
                ai_hp as int,
                opponent_hp as int,
                depth as nat,
                true,
                #[trigger] plays_v[j],
            );
        lemma_heur_fold_covers(
            ai_s,
            opp_s,
            ai_hp as int,
            opponent_hp as int,
            depth as nat,
            true,
            plays_v,
            0,
            kk,
        );
        assert(t == best);
        assert(plays_v[kk] == plays_v[kk]);
    }
    (chosen, best)
}

} // verus!
