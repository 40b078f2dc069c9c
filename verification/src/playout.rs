//! The playout simulator: estimates win probability by independent trials.
//!
//! A trial either resolves the position with the strict-regime search to the
//! depth bound, or simulates the game to completion under a uniformly random
//! legal-move policy: the mover plays a generated reply picked by a seeded
//! generator, passes only when no reply exists (losing one life point and
//! clearing the constraint), and the sides alternate until a hand empties or
//! a life counter reaches zero.  A trial is a pure function of the starting
//! state and its seed — `spec_simulate_playout` — so identical seeds and
//! states reproduce identical outcomes.  Trials are independent: each draws
//! its seed from the base seed and its own index alone.

use vstd::prelude::*;
use crate::cards::{Card, clone_cards, remove_cards, remove_combo_cards};
use crate::combo::{Combo, ComboV, combo_cards_within, combos_view, lemma_remove_cards_len};
use crate::plays::{find_opponent_valid_plays, lemma_generate_sound, opt_view, spec_generate};
use crate::search::{spec_alpha_beta_start, strict_value, alpha_beta, prior_view};

verus! {

/// Multiplier of the linear congruential step.
pub const RNG_MUL: u64 = 0x5851_f42d_4c95_7f2d;

/// Increment of the linear congruential step.
pub const RNG_INC: u64 = 0x1405_7b7e_f767_814f;

/// Stride between the seeds of consecutive trials.
pub const TRIAL_STRIDE: u64 = 0x9e37_79b9_7f4a_7c15;

/// One step of the deterministic pseudo-random generator.
pub open spec fn rng_next(s: u64) -> u64 {
    vstd::wrapping::u64_specs::wrapping_add(
        vstd::wrapping::u64_specs::wrapping_mul(s, RNG_MUL),
        RNG_INC,
    )
}

/// The seed of one trial: the base seed advanced by a fixed stride per
/// index, so trials are independent of each other and of their order.
pub open spec fn trial_seed(seed: u64, i: int) -> u64 {
    vstd::wrapping::u64_specs::wrapping_add(
        seed,
        vstd::wrapping::u64_specs::wrapping_mul(i as u64, TRIAL_STRIDE),
    )
}

/// Total work left in a playout: cards still held plus life points still to
/// lose.  Every step sheds at least one card or one life point.
pub open spec fn playout_measure(ai: Seq<Card>, opp: Seq<Card>, ai_hp: int, opp_hp: int) -> int {
    ai.len() + opp.len() + (if ai_hp > 0 {
        ai_hp
    } else {
        0
    }) + (if opp_hp > 0 {
        opp_hp
    } else {
        0
    })
}

/// The outcome of one random-policy playout: true exactly when the AI wins
/// (its hand empties or the opponent's life reaches zero, checked before the
/// mirrored loss conditions).  The mover plays the reply at the random index
/// `state % count`, or passes when no reply exists.  A pure function of the
/// state and the generator seed: reproducibility is by construction.
#[verifier::opaque]
pub open spec fn spec_playout(
    ai: Seq<Card>,
    opp: Seq<Card>,
    ai_hp: int,
    opp_hp: int,
    cons: Option<ComboV>,
    ai_turn: bool,
    rng: u64,
) -> bool
    decreases playout_measure(ai, opp, ai_hp, opp_hp),
    via spec_playout_decreases
{
    if ai.len() == 0 || opp_hp <= 0 {
        true
    } else if opp.len() == 0 || ai_hp <= 0 {
        false
    } else {
        let hand = if ai_turn {
            ai
        } else {
            opp
        };
        let plays = spec_generate(hand, cons);
        if plays.len() == 0 {
            if ai_turn {
                spec_playout(ai, opp, ai_hp - 1, opp_hp, None, false, rng)
            } else {
                spec_playout(ai, opp, ai_hp, opp_hp - 1, None, true, rng)
            }
        } else {
            let st = rng_next(rng);
            let play = plays[st as int % plays.len() as int];
            if ai_turn {
                spec_playout(remove_cards(ai, play.cards), opp, ai_hp, opp_hp, Some(play), false, st)
            } else {
                spec_playout(ai, remove_cards(opp, play.cards), ai_hp, opp_hp, Some(play), true, st)
            }
        }
    }
}

#[via_fn]
proof fn spec_playout_decreases(
    ai: Seq<Card>,
    opp: Seq<Card>,
    ai_hp: int,
    opp_hp: int,
    cons: Option<ComboV>,
    ai_turn: bool,
    rng: u64,
) {
    if !(ai.len() == 0 || opp_hp <= 0) && !(opp.len() == 0 || ai_hp <= 0) {
        let hand = if ai_turn {
            ai
        } else {
            opp
        };
        let plays = spec_generate(hand, cons);
        if plays.len() > 0 {
            let st = rng_next(rng);
            let idx = st as int % plays.len() as int;
            lemma_generate_sound(hand, cons);
            assert(0 <= idx < plays.len());
            let play = plays[idx];
            assert(combo_cards_within(play.cards, hand));
            assert(play.cards.len() >= 1);
            lemma_remove_cards_len(hand, play.cards);
        }
    }
}

/// One unfolding of `spec_playout` at a non-terminal state.
proof fn lemma_playout_unfold(
    ai: Seq<Card>,
    opp: Seq<Card>,
    ai_hp: int,
    opp_hp: int,
    cons: Option<ComboV>,
    ai_turn: bool,
    rng: u64,
)
    requires
        ai.len() > 0,
        opp.len() > 0,
        ai_hp > 0,
        opp_hp > 0,
    ensures
        ({
            let hand = if ai_turn {
                ai
            } else {
                opp
            };
            let plays = spec_generate(hand, cons);
            if plays.len() == 0 {
                spec_playout(ai, opp, ai_hp, opp_hp, cons, ai_turn, rng) == (if ai_turn {
                    spec_playout(ai, opp, ai_hp - 1, opp_hp, None, false, rng)
                } else {
                    spec_playout(ai, opp, ai_hp, opp_hp - 1, None, true, rng)
                })
            } else {
                let st = rng_next(rng);
                let play = plays[st as int % plays.len() as int];
                spec_playout(ai, opp, ai_hp, opp_hp, cons, ai_turn, rng) == (if ai_turn {
                    spec_playout(
                        remove_cards(ai, play.cards),
                        opp,
                        ai_hp,
                        opp_hp,
                        Some(play),
                        false,
                        st,
                    )
                } else {
                    spec_playout(
                        ai,
                        remove_cards(opp, play.cards),
                        ai_hp,
                        opp_hp,
                        Some(play),
                        true,
                        st,
                    )
                })
            }
        }),
{
    reveal(spec_playout);
}

/// Terminal outcomes of a playout.
proof fn lemma_playout_terminal(
    ai: Seq<Card>,
    opp: Seq<Card>,
    ai_hp: int,
    opp_hp: int,
    cons: Option<ComboV>,
    ai_turn: bool,
    rng: u64,
)
    ensures
        (ai.len() == 0 || opp_hp <= 0) ==> spec_playout(ai, opp, ai_hp, opp_hp, cons, ai_turn, rng),
        (!(ai.len() == 0 || opp_hp <= 0) && (opp.len() == 0 || ai_hp <= 0)) ==> !spec_playout(
            ai,
            opp,
            ai_hp,
            opp_hp,
            cons,
            ai_turn,
            rng,
        ),
{
    reveal(spec_playout);
}

/// Runs one random-policy playout to completion: one step per call, the
/// state shrinking by a card or a life point each time.
#[verifier::rlimit(50)]
fn random_playout(
    ai: &Vec<Card>,
    opp: &Vec<Card>,
    ai_hp: i32,
    opp_hp: i32,
    cons: Option<&Combo>,
    ai_turn: bool,
    rng: u64,
) -> (w: bool)
    ensures
        w == spec_playout(ai@, opp@, ai_hp as int, opp_hp as int, opt_view(cons), ai_turn, rng),
    decreases playout_measure(ai@, opp@, ai_hp as int, opp_hp as int),
{
    proof {
        lemma_playout_terminal(
            ai@,
            opp@,
            ai_hp as int,
            opp_hp as int,
            opt_view(cons),
            ai_turn,
            rng,
        );
    }
    if ai.len() == 0 || opp_hp <= 0 {
        return true;
    }
    if opp.len() == 0 || ai_hp <= 0 {
        return false;
    }
    let mover: &Vec<Card> = if ai_turn {
        ai
    } else {
        opp
    };
    let ghost hand_s: Seq<Card> = mover@;
    let plays = find_opponent_valid_plays(mover, cons);
    proof {
        lemma_playout_unfold(
            ai@,
            opp@,
            ai_hp as int,
            opp_hp as int,
            opt_view(cons),
            ai_turn,
            rng,
        );
    }
    if plays.len() == 0 {
        if ai_turn {
            random_playout(ai, opp, ai_hp - 1, opp_hp, None, false, rng)
        } else {
            random_playout(ai, opp, ai_hp, opp_hp - 1, None, true, rng)
        }
    } else {
        let st = rng.wrapping_mul(RNG_MUL).wrapping_add(RNG_INC);
        let n = plays.len();
        let idx = (st % (n as u64)) as usize;
        proof {
            assert(st == rng_next(rng));
            assert(idx < n);
            assert(idx as int == st as int % n as int);
            assert(combos_view(plays@)[idx as int] == plays@[idx as int]@);
            lemma_generate_sound(hand_s, opt_view(cons));
            lemma_remove_cards_len(hand_s, combos_view(plays@)[idx as int].cards);
        }
        let play = &plays[idx];
        if ai_turn {
            let new_ai = remove_combo_cards(ai, &play.cards);
            random_playout(&new_ai, opp, ai_hp, opp_hp, Some(play), false, st)
        } else {
            let new_opp = remove_combo_cards(opp, &play.cards);
            random_playout(ai, &new_opp, ai_hp, opp_hp, Some(play), true, st)
        }
    }
}

/// The outcome of one trial from a boundary state: the prior play (if any)
/// first leaves the AI hand and becomes the constraint; then either the
/// strict search decides the position (a win exactly when it returns 1), or
/// a random playout runs under the trial's seed.
pub open spec fn spec_simulate_playout(
    ai: Seq<Card>,
    opp: Seq<Card>,
    ai_hp: int,
    opp_hp: int,
    prior: Option<Seq<Card>>,
    cons0: Option<ComboV>,
    ai_turn: bool,
    use_alpha_beta: bool,
    depth: nat,
    seed: u64,
) -> bool {
    let st = spec_alpha_beta_start(ai, prior, cons0);
    if use_alpha_beta {
        strict_value(st.0, opp, ai_hp, opp_hp, st.1, depth, ai_turn) == 1
    } else {
        spec_playout(st.0, opp, ai_hp, opp_hp, st.1, ai_turn, seed)
    }
}

/// Simulates one playout.  The result is a pure function of the starting
/// state and the seed, so a fixed seed reproduces the same outcome; an AI
/// hand that is empty after the prior play is an immediate win.
pub fn simulate_playout(
    ai_hand: &Vec<Card>,
    opponent_hand: &Vec<Card>,
    ai_hp: i32,
    opponent_hp: i32,
    prior_play: Option<&Vec<Card>>,
    last_combo: Option<&Combo>,
    is_ai_turn_after_play: bool,
    use_alpha_beta: bool,
    depth: usize,
    seed: u64,
) -> (w: bool)
    ensures
        w == spec_simulate_playout(
            ai_hand@,
            opponent_hand@,
            ai_hp as int,
            opponent_hp as int,
            prior_view(prior_play),
            opt_view(last_combo),
            is_ai_turn_after_play,
            use_alpha_beta,
            depth as nat,
            seed,
        ),
        spec_alpha_beta_start(ai_hand@, prior_view(prior_play), opt_view(last_combo)).0.len() == 0
            ==> w,
{
    let ghost st = spec_alpha_beta_start(ai_hand@, prior_view(prior_play), opt_view(last_combo));
    proof {
        lemma_playout_terminal(
            st.0,
            opponent_hand@,
            ai_hp as int,
            opponent_hp as int,
            st.1,
            is_ai_turn_after_play,
            seed,
        );
    }
    if use_alpha_beta {
        let v = alpha_beta(
            ai_hand,
            opponent_hand,
            prior_play,
            last_combo,
            is_ai_turn_after_play,
            ai_hp,
            opponent_hp,
            depth,
        );
        v == 1
    } else {
        let w: bool;
        let mut applied = false;
        match prior_play {
            Some(pp) => {
                if pp.len() > 0 {
                    applied = true;
                    let new_ai = remove_combo_cards(ai_hand, pp);
                    let t = crate::search::infer_combo_type(pp);
                    let lead = exec_prior_lead(pp);
                    let cons = Combo { cards: clone_cards(pp), combo_type: t, lead_value: lead };
                    proof {
                        assert(cons@ == crate::search::inferred_combo(pp@));
                    }
                    w = random_playout(
                        &new_ai,
                        opponent_hand,
                        ai_hp,
                        opponent_hp,
                        Some(&cons),
                        is_ai_turn_after_play,
                        seed,
                    );
                } else {
                    w = random_playout(
                        ai_hand,
                        opponent_hand,
                        ai_hp,
                        opponent_hp,
                        last_combo,
                        is_ai_turn_after_play,
                        seed,
                    );
                }
            },
            None => {
                w = random_playout(
                    ai_hand,
                    opponent_hand,
                    ai_hp,
                    opponent_hp,
                    last_combo,
                    is_ai_turn_after_play,
                    seed,
                );
            },
        }
        w
    }
}

/// The greatest ordinal of a prior play, as its lead value.
fn exec_prior_lead(cards: &Vec<Card>) -> (m: u8)
    ensures
        m == crate::search::max_ord(cards@),
{
    let mut m: u8 = 0;
    let n = cards.len();
    let mut i: usize = 0;
    while i < n
        invariant
            n == cards@.len(),
            i <= n,
            m == crate::search::max_ord(cards@.take(i as int)),
        decreases n - i,
    {
        proof {
            assert(cards@.take(i + 1).drop_last() =~= cards@.take(i as int));
            assert(cards@.take(i + 1).last() == cards@[i as int]);
        }
        let v = crate::cards::card_value(cards[i].rank.as_str());
        if v > m {
            m = v;
        }
        i = i + 1;
    }
    proof {
        assert(cards@.take(n as int) =~= cards@);
    }
    m
}

/// How many of the first `t` trials the AI wins.
pub open spec fn spec_playout_wins(
    ai: Seq<Card>,
    opp: Seq<Card>,
    ai_hp: int,
    opp_hp: int,
    prior: Option<Seq<Card>>,
    cons0: Option<ComboV>,
    ai_turn: bool,
    use_alpha_beta: bool,
    depth: nat,
    seed: u64,
    t: int,
) -> int
    decreases t,
{
    if t <= 0 {
        0
    } else {
        spec_playout_wins(ai, opp, ai_hp, opp_hp, prior, cons0, ai_turn, use_alpha_beta, depth, seed, t - 1)
            + if spec_simulate_playout(
            ai,
            opp,
            ai_hp,
            opp_hp,
            prior,
            cons0,
            ai_turn,
            use_alpha_beta,
            depth,
            trial_seed(seed, t - 1),
        ) {
            1int
        } else {
            0int
        }
    }
}

/// Runs `trial_count` independent playouts and counts the AI's wins.  Each
/// trial draws its own seed from the base seed and its index, so the count
/// is a pure function of the state, the base seed and the trial count, and
/// an AI hand already empty after the prior play wins every trial.
pub fn simulate_playouts_parallel(
    ai_hand: &Vec<Card>,
    opponent_hand: &Vec<Card>,
    ai_hp: i32,
    opponent_hp: i32,
    prior_play: Option<&Vec<Card>>,
    last_combo: Option<&Combo>,
    is_ai_turn_after_play: bool,
    trial_count: usize,
    use_alpha_beta: bool,
    depth: usize,
    seed: u64,
) -> (wins: usize)
    ensures
        wins <= trial_count,
        wins as int == spec_playout_wins(
            ai_hand@,
            opponent_hand@,
            ai_hp as int,
            opponent_hp as int,
            prior_view(prior_play),
            opt_view(last_combo),
            is_ai_turn_after_play,
            use_alpha_beta,
            depth as nat,
            seed,
            trial_count as int,
        ),
        spec_alpha_beta_start(ai_hand@, prior_view(prior_play), opt_view(last_combo)).0.len() == 0
            ==> wins == trial_count,
{
    let mut wins: usize = 0;
    let mut i: usize = 0;
    let ghost st = spec_alpha_beta_start(ai_hand@, prior_view(prior_play), opt_view(last_combo));
    while i < trial_count
        invariant
            i <= trial_count,
            wins <= i,
            wins as int == spec_playout_wins(
                ai_hand@,
                opponent_hand@,
                ai_hp as int,
                opponent_hp as int,
                prior_view(prior_play),
                opt_view(last_combo),
                is_ai_turn_after_play,
                use_alpha_beta,
                depth as nat,
                seed,
                i as int,
            ),
            st == spec_alpha_beta_start(ai_hand@, prior_view(prior_play), opt_view(last_combo)),
            st.0.len() == 0 ==> wins == i,
        decreases trial_count - i,
    {
        let tseed = seed.wrapping_add((i as u64).wrapping_mul(TRIAL_STRIDE));
        proof {
            assert(tseed == trial_seed(seed, i as int));
        }
        let w = simulate_playout(
            ai_hand,
            opponent_hand,
            ai_hp,
            opponent_hp,
            prior_play,
            last_combo,
            is_ai_turn_after_play,
            use_alpha_beta,
            depth,
            tseed,
        );
        if w {
            wins = wins + 1;
        }
        i = i + 1;
    }
    wins
}

} // verus!
