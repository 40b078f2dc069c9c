//! Adversarial search.
//!
//! The strict regime scores a position 1 when the AI has won (its hand empty
//! or the opponent out of life points), -1 when it has lost, 0 when the depth
//! bound ends the search undecided.  Both movers enumerate replies with the
//! full generator; PASS is a reply whenever a constraint is active, costs one
//! life point and clears the constraint.  The searcher prunes with fail-hard
//! alpha-beta cutoffs; its contract states the classical window relation to
//! the pruning-free game value `strict_value`, so a full-window call returns
//! that value exactly.

use vstd::prelude::*;
use crate::cards::{Card, card_ord, card_value, clone_cards, cnt_ord, rank_counts, remove_cards,
    remove_combo_cards};
use crate::combo::{Combo, ComboType, ComboV, combos_view, pass_combo, pass_combo_v};
use crate::plays::{find_opponent_valid_plays, lemma_combos_view_push,
    lemma_generate_opening_nonempty, opt_view, spec_generate};

verus! {

/// Terminal test: the depth bound, an empty hand, or a dead side.
pub open spec fn strict_is_terminal(
    ai: Seq<Card>,
    opp: Seq<Card>,
    ai_hp: int,
    opp_hp: int,
    depth: nat,
) -> bool {
    depth == 0 || ai.len() == 0 || opp.len() == 0 || ai_hp <= 0 || opp_hp <= 0
}

/// Terminal value: +1 when the AI's hand is empty or the opponent is dead,
/// -1 when the opponent's hand is empty or the AI is dead, else 0.
pub open spec fn strict_terminal(ai: Seq<Card>, opp: Seq<Card>, ai_hp: int, opp_hp: int) -> int {
    if ai.len() == 0 || opp_hp <= 0 {
        1
    } else if opp.len() == 0 || ai_hp <= 0 {
        -1
    } else {
        0
    }
}

/// The mover's reply list: every generated combo, and PASS whenever a
/// constraint is active.
pub open spec fn strict_plays(hand: Seq<Card>, cons: Option<ComboV>) -> Seq<ComboV> {
    match cons {
        None => spec_generate(hand, None),
        Some(c) => spec_generate(hand, Some(c)) + seq![pass_combo_v()],
    }
}

/// The game value of playing `play` at a non-terminal state: PASS costs the
/// mover a life point and clears the constraint; any other combo leaves the
/// mover's hand and becomes the constraint.  Roles then alternate.
pub open spec fn strict_play_value(
    ai: Seq<Card>,
    opp: Seq<Card>,
    ai_hp: int,
    opp_hp: int,
    depth: nat,
    ai_turn: bool,
    play: ComboV,
) -> int
    decreases depth, 0int, 0int,
{
    if depth == 0 {
        0
    } else if ai_turn {
        if play.combo_type == ComboType::Pass {
            strict_value(ai, opp, ai_hp - 1, opp_hp, None, (depth - 1) as nat, false)
        } else {
            strict_value(
                remove_cards(ai, play.cards),
                opp,
                ai_hp,
                opp_hp,
                Some(play),
                (depth - 1) as nat,
                false,
            )
        }
    } else {
        if play.combo_type == ComboType::Pass {
            strict_value(ai, opp, ai_hp, opp_hp - 1, None, (depth - 1) as nat, true)
        } else {
            strict_value(
                ai,
                remove_cards(opp, play.cards),
                ai_hp,
                opp_hp,
                Some(play),
                (depth - 1) as nat,
                true,
            )
        }
    }
}

/// The extremum of the play values from index `i` on: a maximum on the AI's
/// turn, a minimum on the opponent's.  The base sentinels lie outside the
/// value range -1..1 and never surface for a non-empty reply list.
pub open spec fn strict_fold(
    ai: Seq<Card>,
    opp: Seq<Card>,
    ai_hp: int,
    opp_hp: int,
    depth: nat,
    ai_turn: bool,
    plays: Seq<ComboV>,
    i: int,
) -> int
    decreases depth, 1int, plays.len() - i,
{
    if i < 0 || i >= plays.len() {
        if ai_turn {
            -2
        } else {
            2
        }
    } else {
        let v = strict_play_value(ai, opp, ai_hp, opp_hp, depth, ai_turn, plays[i]);
        let rest = strict_fold(ai, opp, ai_hp, opp_hp, depth, ai_turn, plays, i + 1);
        if ai_turn {
            if v >= rest {
                v
            } else {
                rest
            }
        } else {
            if v <= rest {
                v
            } else {
                rest
            }
        }
    }
}

/// The pruning-free strict game value: the terminal value at a terminal
/// state, else the extremum over the mover's replies.
pub open spec fn strict_value(
    ai: Seq<Card>,
    opp: Seq<Card>,
    ai_hp: int,
    opp_hp: int,
    cons: Option<ComboV>,
    depth: nat,
    ai_turn: bool,
) -> int
    decreases depth, 2int, 0int,
{
    if strict_is_terminal(ai, opp, ai_hp, opp_hp, depth) {
        strict_terminal(ai, opp, ai_hp, opp_hp)
    } else {
        let plays = strict_plays(if ai_turn {
            ai
        } else {
            opp
        }, cons);
        strict_fold(ai, opp, ai_hp, opp_hp, depth, ai_turn, plays, 0)
    }
}

/// The strict value at a decided state does not depend on the depth bound:
/// a side with an empty hand, or facing a dead opponent, has won outright.
pub proof fn lemma_strict_value_decided(
    ai: Seq<Card>,
    opp: Seq<Card>,
    ai_hp: int,
    opp_hp: int,
    cons: Option<ComboV>,
    depth: nat,
    ai_turn: bool,
)
    ensures
        (ai.len() == 0 || opp_hp <= 0) ==> strict_value(ai, opp, ai_hp, opp_hp, cons, depth, ai_turn)
            == 1,
        (ai.len() > 0 && opp_hp > 0 && (opp.len() == 0 || ai_hp <= 0)) ==> strict_value(
            ai,
            opp,
            ai_hp,
            opp_hp,
            cons,
            depth,
            ai_turn,
        ) == -1,
{
}

/// With the opponent's hand empty and the AI's hand not, the strict value
/// is 1 exactly on the states where the opponent is already out of life
/// points; with the opponent still alive such a state scores -1 (see
/// `lemma_strict_value_decided`): shedding every card wins the game for the
/// side that sheds, not for the side that watches.
pub proof fn lemma_opponent_empty_scores_one_only_when_dead(
    ai: Seq<Card>,
    opp: Seq<Card>,
    ai_hp: int,
    opp_hp: int,
    cons: Option<ComboV>,
    depth: nat,
    ai_turn: bool,
)
    requires
        opp.len() == 0,
        ai.len() > 0,
    ensures
        opp_hp <= 0 ==> strict_value(ai, opp, ai_hp, opp_hp, cons, depth, ai_turn) == 1,
        opp_hp > 0 ==> strict_value(ai, opp, ai_hp, opp_hp, cons, depth, ai_turn) == -1,
{
}

/// The fold bounds every one of its elements.
proof fn lemma_strict_fold_covers(
    ai: Seq<Card>,
    opp: Seq<Card>,
    ai_hp: int,
    opp_hp: int,
    depth: nat,
    ai_turn: bool,
    plays: Seq<ComboV>,
    i: int,
    j: int,
)
    requires
        0 <= i <= j < plays.len(),
    ensures
        ai_turn ==> strict_fold(ai, opp, ai_hp, opp_hp, depth, ai_turn, plays, i)
            >= strict_play_value(ai, opp, ai_hp, opp_hp, depth, ai_turn, plays[j]),
        !ai_turn ==> strict_fold(ai, opp, ai_hp, opp_hp, depth, ai_turn, plays, i)
            <= strict_play_value(ai, opp, ai_hp, opp_hp, depth, ai_turn, plays[j]),
    decreases j - i,
{
    if i < j {
        lemma_strict_fold_covers(ai, opp, ai_hp, opp_hp, depth, ai_turn, plays, i + 1, j);
    }
}

/// The fail-soft window relation: a result at or under alpha is an upper
/// bound on the true value, one at or over beta a lower bound, and one
/// strictly inside the window is the true value itself.
pub open spec fn km_ok(r: int, t: int, alpha: int, beta: int) -> bool {
    &&& (r <= alpha ==> t <= r)
    &&& (alpha < r < beta ==> r == t)
    &&& (r >= beta ==> t >= r)
}

/// Strict-regime alpha-beta search with fail-hard cutoffs.  The result
/// relates to the pruning-free value through the window relation `km_ok`;
/// with the full window (-2, 2) it equals that value.
pub(crate) fn strict_search(
    ai_hand: &Vec<Card>,
    opponent_hand: &Vec<Card>,
    ai_hp: i32,
    opponent_hp: i32,
    last_combo: Option<&Combo>,
    depth: usize,
    ai_turn: bool,
    alpha: i32,
    beta: i32,
) -> (r: i32)
    requires
        -2 <= alpha < beta <= 2,
    ensures
        -1 <= r <= 1,
        strict_is_terminal(ai_hand@, opponent_hand@, ai_hp as int, opponent_hp as int, depth as nat)
            ==> r == strict_terminal(ai_hand@, opponent_hand@, ai_hp as int, opponent_hp as int),
        km_ok(
            r as int,
            strict_value(
                ai_hand@,
                opponent_hand@,
                ai_hp as int,
                opponent_hp as int,
                opt_view(last_combo),
                depth as nat,
                ai_turn,
            ),
            alpha as int,
            beta as int,
        ),
    decreases depth,
{
    if depth == 0 || ai_hand.len() == 0 || opponent_hand.len() == 0 || ai_hp <= 0 || opponent_hp
        <= 0 {
        if ai_hand.len() == 0 || opponent_hp <= 0 {
            return 1;
        } else if opponent_hand.len() == 0 || ai_hp <= 0 {
            return -1;
        } else {
            return 0;
        }
    }
    let ghost ai_s = ai_hand@;
    let ghost opp_s = opponent_hand@;
    let ghost cons = opt_view(last_combo);
    let ghost t = strict_value(ai_s, opp_s, ai_hp as int, opponent_hp as int, cons, depth as nat, ai_turn);
    let mover: &Vec<Card> = if ai_turn {
        ai_hand
    } else {
        opponent_hand
    };
    let mut plays = find_opponent_valid_plays(mover, last_combo);
    if last_combo.is_some() {
        let ghost pre = plays@;
        let pass = pass_combo();
        plays.push(pass);
        proof {
            lemma_combos_view_push(pre, pass);
        }
    }
    let ghost plays_v = combos_view(plays@);
    proof {
        assert(plays_v =~= strict_plays(if ai_turn {
            ai_s
        } else {
            opp_s
        }, cons));
        if last_combo.is_none() {
            lemma_generate_opening_nonempty(if ai_turn {
                ai_s
            } else {
                opp_s
            });
        }
        assert(plays_v.len() >= 1);
        assert(t == strict_fold(ai_s, opp_s, ai_hp as int, opponent_hp as int, depth as nat, ai_turn, plays_v, 0));
    }
    let n = plays.len();
    if ai_turn {
        let mut best: i32 = -2;
        let mut a = alpha;
        let mut i: usize = 0;
        while i < n
            invariant
                -2 <= alpha < beta <= 2,
                n == plays@.len(),
                plays_v == combos_view(plays@),
                ai_s == ai_hand@,
                opp_s == opponent_hand@,
                ai_turn == true,
                ai_s.len() > 0,
                opp_s.len() > 0,
                depth >= 1,
                ai_hp >= 1,
                opponent_hp >= 1,
                cons == opt_view(last_combo),
                t == strict_value(ai_s, opp_s, ai_hp as int, opponent_hp as int, cons, depth as nat, true),
                t == strict_fold(ai_s, opp_s, ai_hp as int, opponent_hp as int, depth as nat, true, plays_v, 0),
                i <= n,
                -2 <= best <= 1,
                i > 0 ==> best >= -1,
                best < beta,
                a == (if best > alpha {
                    best as int
                } else {
                    alpha as int
                }),
                a < beta,
                best <= (if alpha as int > t {
                    alpha as int
                } else {
                    t
                }),
                t <= (if best >= strict_fold(
                    ai_s,
                    opp_s,
                    ai_hp as int,
                    opponent_hp as int,
                    depth as nat,
                    true,
                    plays_v,
                    i as int,
                ) {
                    best as int
                } else {
                    strict_fold(
                        ai_s,
                        opp_s,
                        ai_hp as int,
                        opponent_hp as int,
                        depth as nat,
                        true,
                        plays_v,
                        i as int,
                    )
                }),
            decreases n - i,
        {
            proof {
                assert(plays_v[i as int] == plays@[i as int]@);
            }
            let play = &plays[i];
            let is_pass = matches!(play.combo_type, ComboType::Pass);
            let v: i32;
            if is_pass {
                v = strict_search(
                    ai_hand,
                    opponent_hand,
                    ai_hp - 1,
                    opponent_hp,
                    None,
                    depth - 1,
                    false,
                    a,
                    beta,
                );
            } else {
                let new_ai = remove_combo_cards(ai_hand, &play.cards);
                v = strict_search(
                    &new_ai,
                    opponent_hand,
                    ai_hp,
                    opponent_hp,
                    Some(play),
                    depth - 1,
                    false,
                    a,
                    beta,
                );
            }
            let ghost pv = strict_play_value(
                ai_s,
                opp_s,
                ai_hp as int,
                opponent_hp as int,
                depth as nat,
                true,
                plays_v[i as int],
            );
            proof {
                assert(km_ok(v as int, pv, a as int, beta as int));
                lemma_strict_fold_covers(
                    ai_s,
                    opp_s,
                    ai_hp as int,
                    opponent_hp as int,
                    depth as nat,
                    true,
                    plays_v,
                    0,
                    i as int,
                );
            }
            if v > best {
                best = v;
            }
            if best > a {
                a = best;
            }
            if a >= beta {
                proof {
                    assert(v as int >= beta);
                    assert(pv >= v as int);
                    assert(t >= pv);
                }
                return best;
            }
            i = i + 1;
        }
        proof {
            assert(strict_fold(
                ai_s,
                opp_s,
                ai_hp as int,
                opponent_hp as int,
                depth as nat,
                true,
                plays_v,
                n as int,
            ) == -2);
            assert(t <= best as int);
        }
        best
    } else {
        let mut best: i32 = 2;
        let mut b = beta;
        let mut i: usize = 0;
        while i < n
            invariant
                -2 <= alpha < beta <= 2,
                n == plays@.len(),
                plays_v == combos_view(plays@),
                ai_s == ai_hand@,
                opp_s == opponent_hand@,
                ai_turn == false,
                ai_s.len() > 0,
                opp_s.len() > 0,
                depth >= 1,
                ai_hp >= 1,
                opponent_hp >= 1,
                cons == opt_view(last_combo),
                t == strict_value(ai_s, opp_s, ai_hp as int, opponent_hp as int, cons, depth as nat, false),
                t == strict_fold(ai_s, opp_s, ai_hp as int, opponent_hp as int, depth as nat, false, plays_v, 0),
                i <= n,
                -1 <= best <= 2,
                i > 0 ==> best <= 1,
                best > alpha,
                b == (if best < beta {
                    best as int
                } else {
                    beta as int
                }),
                b > alpha,
                best >= (if (beta as int) < t {
                    beta as int
                } else {
                    t
                }),
                t >= (if best <= strict_fold(
                    ai_s,
                    opp_s,
                    ai_hp as int,
                    opponent_hp as int,
                    depth as nat,
                    false,
                    plays_v,
                    i as int,
                ) {
                    best as int
                } else {
                    strict_fold(
                        ai_s,
                        opp_s,
                        ai_hp as int,
                        opponent_hp as int,
                        depth as nat,
                        false,
                        plays_v,
                        i as int,
                    )
                }),
            decreases n - i,
        {
            proof {
                assert(plays_v[i as int] == plays@[i as int]@);
            }
            let play = &plays[i];
            let is_pass = matches!(play.combo_type, ComboType::Pass);
            let v: i32;
            if is_pass {
                v = strict_search(
                    ai_hand,
                    opponent_hand,
                    ai_hp,
                    opponent_hp - 1,
                    None,
                    depth - 1,
                    true,
                    alpha,
                    b,
                );
            } else {
                let new_opp = remove_combo_cards(opponent_hand, &play.cards);
                v = strict_search(
                    ai_hand,
                    &new_opp,
                    ai_hp,
                    opponent_hp,
                    Some(play),
                    depth - 1,
                    true,
                    alpha,
                    b,
                );
            }
            let ghost pv = strict_play_value(
                ai_s,
                opp_s,
                ai_hp as int,
                opponent_hp as int,
                depth as nat,
                false,
                plays_v[i as int],
            );
            proof {
                assert(km_ok(v as int, pv, alpha as int, b as int));
                lemma_strict_fold_covers(
                    ai_s,
                    opp_s,
                    ai_hp as int,
                    opponent_hp as int,
                    depth as nat,
                    false,
                    plays_v,
                    0,
                    i as int,
                );
            }
            if v < best {
                best = v;
            }
            if best < b {
                b = best;
            }
            if b <= alpha {
                proof {
                    assert(v as int <= alpha);
                    assert(pv <= v as int);
                    assert(t <= pv);
                }
                return best;
            }
            i = i + 1;
        }
        proof {
            assert(strict_fold(
                ai_s,
                opp_s,
                ai_hp as int,
                opponent_hp as int,
                depth as nat,
                false,
                plays_v,
                n as int,
            ) == 2);
            assert(t >= best as int);
        }
        best
    }
}

/// The greatest rank ordinal among the cards (0 for none).
pub open spec fn max_ord(s: Seq<Card>) -> u8
    decreases s.len(),
{
    if s.len() == 0 {
        0
    } else {
        let m = max_ord(s.drop_last());
        if card_ord(s.last()) > m {
            card_ord(s.last())
        } else {
            m
        }
    }
}

/// The lowest ordinal the hand holds, or 16 when it holds none at or above
/// `v`.
pub open spec fn first_held_from(s: Seq<Card>, v: int) -> int
    decreases 16 - v,
{
    if v >= 16 || v < 0 {
        16
    } else if cnt_ord(s, v as u8) > 0 {
        v
    } else {
        first_held_from(s, v + 1)
    }
}

/// How many consecutive ordinals from `v` the hand holds exactly `k` times.
pub open spec fn run_len_with(s: Seq<Card>, k: nat, v: int) -> int
    decreases 16 - v,
{
    if v >= 16 || v < 0 {
        0
    } else if cnt_ord(s, v as u8) == k {
        1 + run_len_with(s, k, v + 1)
    } else {
        0
    }
}

/// The hand holds no ordinal at or above `v`.
pub open spec fn none_held_from(s: Seq<Card>, v: int) -> bool
    decreases 16 - v,
{
    if v >= 16 || v < 0 {
        true
    } else {
        cnt_ord(s, v as u8) == 0 && none_held_from(s, v + 1)
    }
}

/// The held ordinals form one consecutive block, each held exactly `k`
/// times, covering every card: the shape of a straight (k = 1) or of a
/// plane's triples (k = 3).
pub open spec fn is_run_shape(s: Seq<Card>, k: nat) -> bool {
    let lo = first_held_from(s, 0);
    lo < 16 && run_len_with(s, k, lo) * k == s.len() && none_held_from(
        s,
        lo + run_len_with(s, k, lo),
    )
}

/// The fixed combo-type inference rule for an externally supplied play:
/// one card is a SINGLE; two, three or four of equal rank are a PAIR, TRIPLE
/// or BOMB; five or more consecutive distinct ranks are a STRAIGHT; two or
/// more consecutive triples covering all cards are a PLANE; anything else
/// falls back to SINGLE.
pub open spec fn spec_infer_type(s: Seq<Card>) -> ComboType {
    if s.len() == 1 {
        ComboType::Single
    } else if s.len() == 2 && cnt_ord(s, card_ord(s[0])) == 2 {
        ComboType::Pair
    } else if s.len() == 3 && cnt_ord(s, card_ord(s[0])) == 3 {
        ComboType::Triple
    } else if s.len() == 4 && cnt_ord(s, card_ord(s[0])) == 4 {
        ComboType::Bomb
    } else if s.len() >= 5 && is_run_shape(s, 1) {
        ComboType::Straight
    } else if s.len() >= 6 && is_run_shape(s, 3) {
        ComboType::Plane
    } else {
        ComboType::Single
    }
}

/// The combo an externally supplied play stands for: its cards, the inferred
/// type, and the greatest ordinal as lead value.
pub open spec fn inferred_combo(cards: Seq<Card>) -> ComboV {
    ComboV { cards: cards, combo_type: spec_infer_type(cards), lead_value: max_ord(cards) }
}

fn exec_max_ord(cards: &Vec<Card>) -> (m: u8)
    ensures
        m == max_ord(cards@),
{
    let mut m: u8 = 0;
    let n = cards.len();
    let mut i: usize = 0;
    while i < n
        invariant
            n == cards@.len(),
            i <= n,
            m == max_ord(cards@.take(i as int)),
        decreases n - i,
    {
        proof {
            assert(cards@.take(i + 1).drop_last() =~= cards@.take(i as int));
            assert(cards@.take(i + 1).last() == cards@[i as int]);
        }
        let v = card_value(cards[i].rank.as_str());
        if v > m {
            m = v;
        }
        i = i + 1;
    }
    proof {
        assert(cards@.take(n as int) =~= cards@);
    }
    m
}

/// Whether the counts show a single consecutive block of ordinals each held
/// exactly `k` times and covering all `n` cards.
fn check_run_shape(counts: &Vec<usize>, k: usize, n: usize, Ghost(s): Ghost<Seq<Card>>) -> (b: bool)
    requires
        counts@.len() == 16,
        forall|v: u8| v < 16 ==> counts@[v as int] == cnt_ord(s, v),
        1 <= k <= 4,
        n == s.len(),
    ensures
        b == is_run_shape(s, k as nat),
{
    let mut lo: usize = 0;
    while lo < 16 && counts[lo] == 0
        invariant
            counts@.len() == 16,
            forall|v: u8| v < 16 ==> counts@[v as int] == cnt_ord(s, v),
            lo <= 16,
            first_held_from(s, 0) == first_held_from(s, lo as int),
        decreases 16 - lo,
    {
        lo = lo + 1;
    }
    if lo == 16 {
        return false;
    }
    proof {
        assert(first_held_from(s, 0) == lo as int);
    }
    let mut m: usize = 0;
    while lo + m < 16 && counts[lo + m] == k
        invariant
            counts@.len() == 16,
            forall|v: u8| v < 16 ==> counts@[v as int] == cnt_ord(s, v),
            lo < 16,
            m <= 16 - lo,
            run_len_with(s, k as nat, lo as int) == m + run_len_with(s, k as nat, lo + m as int),
        decreases 16 - lo - m,
    {
        m = m + 1;
    }
    proof {
        assert(run_len_with(s, k as nat, lo + m as int) == 0);
        assert(run_len_with(s, k as nat, lo as int) == m);
    }
    let mut v = lo + m;
    while v < 16
        invariant
            counts@.len() == 16,
            forall|w: u8| w < 16 ==> counts@[w as int] == cnt_ord(s, w),
            1 <= k <= 4,
            lo < 16,
            lo + m <= v <= 16,
            first_held_from(s, 0) == lo as int,
            run_len_with(s, k as nat, lo as int) == m,
            none_held_from(s, lo + m as int) == none_held_from(s, v as int),
        decreases 16 - v,
    {
        if counts[v] != 0 {
            proof {
                assert(!none_held_from(s, v as int));
            }
            return false;
        }
        v = v + 1;
    }
    proof {
        assert(m <= 16);
        assert(m * k <= 64) by (nonlinear_arith)
            requires
                m <= 16,
                k <= 4,
        ;
    }
    m * k == n
}

/// Infers the combo type of an externally supplied play by the fixed rule.
pub fn infer_combo_type(cards: &Vec<Card>) -> (t: ComboType)
    ensures
        t == spec_infer_type(cards@),
{
    let n = cards.len();
    if n == 1 {
        return ComboType::Single;
    }
    if n >= 2 && n <= 4 {
        let counts = rank_counts(cards);
        let v = card_value(cards[0].rank.as_str()) as usize;
        if counts[v] == n {
            if n == 2 {
                return ComboType::Pair;
            } else if n == 3 {
                return ComboType::Triple;
            } else {
                return ComboType::Bomb;
            }
        } else {
            return ComboType::Single;
        }
    }
    if n >= 5 {
        let counts = rank_counts(cards);
        if check_run_shape(&counts, 1, n, Ghost(cards@)) {
            return ComboType::Straight;
        }
        if n >= 6 && check_run_shape(&counts, 3, n, Ghost(cards@)) {
            return ComboType::Plane;
        }
        return ComboType::Single;
    }
    ComboType::Single
}

/// The optional prior play's card list.
pub open spec fn prior_view(o: Option<&Vec<Card>>) -> Option<Seq<Card>> {
    match o {
        None => None,
        Some(v) => Some(v@),
    }
}

/// The AI hand and constraint that a strict search starts from: a non-empty
/// prior play leaves the AI hand and becomes the constraint (with its type
/// inferred); otherwise the given combo to beat stands.
pub open spec fn spec_alpha_beta_start(
    ai: Seq<Card>,
    prior: Option<Seq<Card>>,
    cons0: Option<ComboV>,
) -> (Seq<Card>, Option<ComboV>) {
    match prior {
        None => (ai, cons0),
        Some(pp) => if pp.len() == 0 {
            (ai, cons0)
        } else {
            (remove_cards(ai, pp), Some(inferred_combo(pp)))
        },
    }
}

/// Strict win/loss search from a boundary state: the prior play (if any) is
/// first removed from the AI hand and becomes the constraint, then a
/// full-window alpha-beta search runs to the depth bound.  The result is
/// exactly the pruning-free strict game value: 1 once the AI has won (its
/// hand empty or the opponent dead), -1 once it has lost, 0 when the depth
/// bound leaves the position undecided.
pub fn alpha_beta(
    ai_hand: &Vec<Card>,
    opponent_hand: &Vec<Card>,
    prior_play: Option<&Vec<Card>>,
    last_combo: Option<&Combo>,
    is_ai_turn_after_play: bool,
    ai_hp: i32,
    opponent_hp: i32,
    depth: usize,
) -> (r: i32)
    ensures
        -1 <= r <= 1,
        ({
            let st = spec_alpha_beta_start(ai_hand@, prior_view(prior_play), opt_view(last_combo));
            r == strict_value(
                st.0,
                opponent_hand@,
                ai_hp as int,
                opponent_hp as int,
                st.1,
                depth as nat,
                is_ai_turn_after_play,
            )
        }),
        ({
            let st = spec_alpha_beta_start(ai_hand@, prior_view(prior_play), opt_view(last_combo));
            &&& ((st.0.len() == 0 || opponent_hp <= 0) ==> r == 1)
            &&& ((st.0.len() > 0 && opponent_hp > 0 && (opponent_hand@.len() == 0 || ai_hp <= 0))
                ==> r == -1)
        }),
{
    let ghost st = spec_alpha_beta_start(ai_hand@, prior_view(prior_play), opt_view(last_combo));
    let r: i32;
    let mut use_prior = false;
    match prior_play {
        Some(pp) => {
            if pp.len() > 0 {
                use_prior = true;
                let new_ai = remove_combo_cards(ai_hand, pp);
                let t = infer_combo_type(pp);
                let lead = exec_max_ord(pp);
                let cons = Combo { cards: clone_cards(pp), combo_type: t, lead_value: lead };
                proof {
                    assert(cons@ == inferred_combo(pp@));
                }
                r = strict_search(
                    &new_ai,
                    opponent_hand,
                    ai_hp,
                    opponent_hp,
                    Some(&cons),
                    depth,
                    is_ai_turn_after_play,
                    -2,
                    2,
                );
            } else {
                r = strict_search(
                    ai_hand,
                    opponent_hand,
                    ai_hp,
                    opponent_hp,
                    last_combo,
                    depth,
                    is_ai_turn_after_play,
                    -2,
                    2,
                );
            }
        },
        None => {
            r = strict_search(
                ai_hand,
                opponent_hand,
                ai_hp,
                opponent_hp,
                last_combo,
                depth,
                is_ai_turn_after_play,
                -2,
                2,
            );
        },
    }
    proof {
        lemma_strict_value_decided(
            st.0,
            opponent_hand@,
            ai_hp as int,
            opponent_hp as int,
            st.1,
            depth as nat,
            is_ai_turn_after_play,
        );
    }
    r
}

} // verus!
