use mcts_rust::cards::{card_value, Card};
use mcts_rust::combo::{Combo, ComboType};
use mcts_rust::estimate::estimate_opponent_responses;
use mcts_rust::eval::{
    count_controls_x100, evaluate_hand_strength, evaluate_move_with_hand,
    evaluate_position_with_hand, estimate_turns_to_win,
};
use mcts_rust::minimax::minimax_search;
use mcts_rust::plays::find_opponent_valid_plays;
use mcts_rust::search::{alpha_beta, infer_combo_type};

fn card(rank: &str, suit: &str) -> Card {
    Card {
        rank: rank.to_string(),
        suit: suit.to_string(),
    }
}

fn hand_of(ranks: &[&str]) -> Vec<Card> {
    let suits = ["S", "H", "D", "C"];
    let mut out = Vec::new();
    let mut seen: Vec<(String, usize)> = Vec::new();
    for r in ranks {
        let k = seen.iter().position(|(rr, _)| rr == r);
        let idx = match k {
            Some(i) => {
                seen[i].1 += 1;
                seen[i].1
            }
            None => {
                seen.push((r.to_string(), 0));
                0
            }
        };
        out.push(card(r, suits[idx % 4]));
    }
    out
}

fn combo(ranks: &[&str], t: ComboType, lead: u8) -> Combo {
    Combo {
        cards: hand_of(ranks),
        combo_type: t,
        lead_value: lead,
    }
}

fn count_in(cards: &[Card], c: &Card) -> usize {
    cards
        .iter()
        .filter(|x| x.rank == c.rank && x.suit == c.suit)
        .count()
}

#[test]
fn rank_ordinals_strictly_increase() {
    let labels = [
        "3", "4", "5", "6", "7", "8", "9", "10", "J", "Q", "K", "A", "2",
    ];
    let expected: [u8; 13] = [3, 4, 5, 6, 7, 8, 9, 10, 11, 12, 13, 14, 15];
    let mut prev: i32 = -1;
    for (l, e) in labels.iter().zip(expected.iter()) {
        let v = card_value(l);
        assert_eq!(v, *e);
        assert!((v as i32) > prev);
        prev = v as i32;
    }
    assert_eq!(card_value("2"), 15);
}

#[test]
fn unknown_rank_maps_to_zero() {
    assert_eq!(card_value("joker"), 0);
    assert_eq!(card_value(""), 0);
    assert_eq!(card_value("1"), 0);
    assert_eq!(card_value("11"), 0);
}

#[test]
fn opening_generation_enumerates_all_shapes() {
    // 3,3,4,5,6,7 : six singles, one pair, one straight 3..7
    let hand = hand_of(&["3", "3", "4", "5", "6", "7"]);
    let plays = find_opponent_valid_plays(&hand, None);
    let singles = plays
        .iter()
        .filter(|c| c.combo_type == ComboType::Single)
        .count();
    let pairs: Vec<_> = plays
        .iter()
        .filter(|c| c.combo_type == ComboType::Pair)
        .collect();
    let straights: Vec<_> = plays
        .iter()
        .filter(|c| c.combo_type == ComboType::Straight)
        .collect();
    let bombs = plays
        .iter()
        .filter(|c| c.combo_type == ComboType::Bomb)
        .count();
    assert_eq!(singles, 6);
    assert_eq!(pairs.len(), 1);
    assert_eq!(pairs[0].lead_value, 3);
    assert_eq!(straights.len(), 1);
    assert_eq!(straights[0].lead_value, 7);
    assert_eq!(straights[0].cards.len(), 5);
    assert_eq!(bombs, 0);
}

#[test]
fn generated_combos_are_within_hand() {
    // soundness: multiplicity of every card of every combo stays within the hand
    let hand = hand_of(&["3", "3", "3", "4", "5", "6", "7", "9", "9", "2", "2", "2", "2"]);
    let plays = find_opponent_valid_plays(&hand, None);
    assert!(!plays.is_empty());
    for p in &plays {
        assert!(p.combo_type != ComboType::Pass);
        assert!(!p.cards.is_empty());
        for c in &p.cards {
            assert!(count_in(&p.cards, c) <= count_in(&hand, c));
        }
    }
}

#[test]
fn one_four_of_a_kind_yields_one_bomb() {
    let hand = hand_of(&["9", "9", "9", "9", "3", "5", "K"]);
    let plays = find_opponent_valid_plays(&hand, None);
    let bombs: Vec<_> = plays
        .iter()
        .filter(|c| c.combo_type == ComboType::Bomb)
        .collect();
    assert_eq!(bombs.len(), 1);
    assert_eq!(bombs[0].lead_value, 9);
    assert_eq!(bombs[0].cards.len(), 4);
}

#[test]
fn pair_responses_beat_the_lead_and_bombs_always_come() {
    // constraint: a pair of tens (lead 10)
    let cons = combo(&["10", "10"], ComboType::Pair, 10);
    let hand = hand_of(&["4", "4", "9", "9", "J", "J", "A", "A", "6", "6", "6", "6"]);
    let plays = find_opponent_valid_plays(&hand, Some(&cons));
    let pair_leads: Vec<u8> = plays
        .iter()
        .filter(|c| c.combo_type == ComboType::Pair)
        .map(|c| c.lead_value)
        .collect();
    assert!(pair_leads.iter().all(|&l| l > 10));
    assert_eq!(pair_leads, vec![11, 14]);
    // the bomb of sixes is offered although its lead is below 10
    let bombs: Vec<_> = plays
        .iter()
        .filter(|c| c.combo_type == ComboType::Bomb)
        .collect();
    assert_eq!(bombs.len(), 1);
    assert_eq!(bombs[0].lead_value, 6);
}

#[test]
fn bomb_constraint_admits_only_higher_bombs() {
    let cons = combo(&["8", "8", "8", "8"], ComboType::Bomb, 8);
    let hand = hand_of(&["6", "6", "6", "6", "J", "J", "J", "J"]);
    let plays = find_opponent_valid_plays(&hand, Some(&cons));
    assert_eq!(plays.len(), 1);
    assert_eq!(plays[0].combo_type, ComboType::Bomb);
    assert_eq!(plays[0].lead_value, 11);
}

#[test]
fn straight_response_keeps_the_length() {
    let cons = combo(&["3", "4", "5", "6", "7"], ComboType::Straight, 7);
    let hand = hand_of(&["5", "6", "7", "8", "9", "10"]);
    let plays = find_opponent_valid_plays(&hand, Some(&cons));
    let straights: Vec<_> = plays
        .iter()
        .filter(|c| c.combo_type == ComboType::Straight)
        .collect();
    // 5..9 and 6..10 both have length 5 and beat lead 7
    assert_eq!(straights.len(), 2);
    assert!(straights.iter().all(|c| c.cards.len() == 5));
    assert_eq!(straights[0].lead_value, 9);
    assert_eq!(straights[1].lead_value, 10);
}

#[test]
fn plane_generation_covers_sub_runs() {
    let hand = hand_of(&["3", "3", "3", "4", "4", "4", "5", "5", "5"]);
    let plays = find_opponent_valid_plays(&hand, None);
    let planes: Vec<_> = plays
        .iter()
        .filter(|c| c.combo_type == ComboType::Plane)
        .collect();
    // windows: 3-4, 3-4-5, 4-5
    assert_eq!(planes.len(), 3);
    assert_eq!(planes[0].cards.len(), 6);
    assert_eq!(planes[0].lead_value, 4);
    assert_eq!(planes[1].cards.len(), 9);
    assert_eq!(planes[1].lead_value, 5);
    assert_eq!(planes[2].cards.len(), 6);
    assert_eq!(planes[2].lead_value, 5);
}

#[test]
fn estimator_opening_gives_low_singles_pair_and_pass() {
    let hand = hand_of(&["K", "5", "8", "8", "3"]);
    let resp = estimate_opponent_responses(&hand, None);
    assert_eq!(resp.len(), 4);
    assert_eq!(resp[0].combo_type, ComboType::Single);
    assert_eq!(resp[0].lead_value, 3);
    assert_eq!(resp[1].combo_type, ComboType::Single);
    assert_eq!(resp[1].lead_value, 5);
    assert_eq!(resp[2].combo_type, ComboType::Pair);
    assert_eq!(resp[2].lead_value, 8);
    assert_eq!(resp[3].combo_type, ComboType::Pass);
}

#[test]
fn estimator_response_is_capped_at_five() {
    let cons = combo(&["3"], ComboType::Single, 3);
    let hand = hand_of(&["4", "5", "6", "8", "10", "Q", "K", "A"]);
    let resp = estimate_opponent_responses(&hand, Some(&cons));
    assert_eq!(resp.len(), 5);
    // every entry beats the single three
    assert!(resp.iter().all(|c| c.lead_value > 3));
}

#[test]
fn evaluate_position_of_empty_hand_is_zero() {
    let empty: Vec<Card> = Vec::new();
    assert_eq!(evaluate_position_with_hand(&empty), 0);
}

#[test]
fn evaluate_position_prefers_four_twos_over_single_three() {
    let twos = hand_of(&["2", "2", "2", "2"]);
    let three = hand_of(&["3"]);
    let a = evaluate_position_with_hand(&twos);
    let b = evaluate_position_with_hand(&three);
    assert_eq!(a, 1300);
    assert_eq!(b, -350);
    assert!(a > b);
}

#[test]
fn evaluation_components_have_exact_values() {
    let twos = hand_of(&["2", "2", "2", "2"]);
    assert_eq!(evaluate_hand_strength(&twos), 110);
    assert_eq!(count_controls_x100(&twos), 600);
    assert_eq!(estimate_turns_to_win(&twos), 1);
    let mixed = hand_of(&["K", "K", "K", "A", "A", "9"]);
    // strength: 3*9 + 2*12 = 51; controls: 2*70 = 140
    assert_eq!(evaluate_hand_strength(&mixed), 51);
    assert_eq!(count_controls_x100(&mixed), 140);
    // turns: triple K, pair A, single 9 = 3; ceil(6/5) = 2
    assert_eq!(estimate_turns_to_win(&mixed), 3);
}

#[test]
fn evaluate_move_scores_pass_and_cheap_single() {
    let hand = hand_of(&["5"]);
    let pass = Combo {
        cards: Vec::new(),
        combo_type: ComboType::Pass,
        lead_value: 0,
    };
    assert_eq!(evaluate_move_with_hand(&pass, None, &hand), -50);
    let single = combo(&["5"], ComboType::Single, 5);
    // +30 (single under 10) - 2*5 + 10*1 - 15*0 = 30
    assert_eq!(evaluate_move_with_hand(&single, None, &hand), 30);
}

#[test]
fn evaluate_move_penalizes_early_bomb() {
    let hand = hand_of(&[
        "6", "6", "6", "6", "3", "4", "5", "7", "8", "9", "10", "J",
    ]);
    let bomb = combo(&["6", "6", "6", "6"], ComboType::Bomb, 6);
    // avg 6 -> -12; cards 4 -> +40; shape delta 0; hand > 10 cards -> -200
    assert_eq!(evaluate_move_with_hand(&bomb, None, &hand), -172);
}

#[test]
fn alpha_beta_scores_decided_states() {
    let empty: Vec<Card> = Vec::new();
    let three = hand_of(&["3"]);
    // the AI has shed its whole hand: a win
    assert_eq!(alpha_beta(&empty, &three, None, None, true, 10, 10, 3), 1);
    // the opponent has shed its whole hand: a loss for the AI
    assert_eq!(alpha_beta(&three, &empty, None, None, true, 10, 10, 3), -1);
    // a dead opponent is a win whatever the hands
    assert_eq!(alpha_beta(&three, &three, None, None, true, 10, 0, 3), 1);
    // a dead AI is a loss
    assert_eq!(alpha_beta(&three, &three, None, None, true, 0, 10, 3), -1);
}

#[test]
fn alpha_beta_sees_immediate_win() {
    let ai = hand_of(&["3"]);
    let opp = hand_of(&["4", "5"]);
    // the AI opens, plays its last card, and wins
    assert_eq!(alpha_beta(&ai, &opp, None, None, true, 10, 10, 2), 1);
}

#[test]
fn alpha_beta_applies_the_prior_play() {
    let ai = hand_of(&["3", "3"]);
    let opp = hand_of(&["4"]);
    let prior = hand_of(&["3", "3"]);
    // the prior pair empties the AI hand: an immediate win
    assert_eq!(
        alpha_beta(&ai, &opp, Some(&prior), None, false, 10, 10, 4),
        1
    );
}

#[test]
fn infer_combo_type_follows_the_fixed_rule() {
    assert_eq!(infer_combo_type(&hand_of(&["8"])), ComboType::Single);
    assert_eq!(infer_combo_type(&hand_of(&["8", "8"])), ComboType::Pair);
    assert_eq!(infer_combo_type(&hand_of(&["8", "8", "8"])), ComboType::Triple);
    assert_eq!(
        infer_combo_type(&hand_of(&["8", "8", "8", "8"])),
        ComboType::Bomb
    );
    assert_eq!(
        infer_combo_type(&hand_of(&["3", "4", "5", "6", "7"])),
        ComboType::Straight
    );
    assert_eq!(
        infer_combo_type(&hand_of(&["3", "3", "3", "4", "4", "4"])),
        ComboType::Plane
    );
    // fallbacks
    assert_eq!(infer_combo_type(&hand_of(&["3", "5"])), ComboType::Single);
    assert_eq!(
        infer_combo_type(&hand_of(&["3", "4", "5", "6", "8"])),
        ComboType::Single
    );
}

#[test]
fn minimax_terminal_returns_position_difference() {
    let twos = hand_of(&["2", "2", "2", "2"]);
    let three = hand_of(&["3"]);
    let (best, score) = minimax_search(&twos, &three, 10, 10, None, 0);
    assert!(best.is_none());
    assert_eq!(score, 1300 - (-350));
}

#[test]
fn minimax_prefers_shedding_a_single_from_the_bomb_hand() {
    // Four "2"s against a lone "3": the heuristic evaluator rewards keeping
    // the bomb, so the chosen move is the first single "2", not the bomb.
    let twos = hand_of(&["2", "2", "2", "2"]);
    let three = hand_of(&["3"]);
    let (best, score) = minimax_search(&twos, &three, 10, 10, None, 1);
    let b = best.expect("a move must be chosen");
    assert_eq!(b.combo_type, ComboType::Single);
    assert_eq!(b.lead_value, 15);
    assert_eq!(score, 866);
    // deeper search stands by the same choice
    let (best2, _score2) = minimax_search(&twos, &three, 10, 10, None, 3);
    let b2 = best2.expect("a move must be chosen");
    assert_eq!(b2.combo_type, ComboType::Single);
}

#[test]
fn minimax_responds_over_a_constraint_or_passes() {
    let ai = hand_of(&["K", "K"]);
    let opp = hand_of(&["9", "9"]);
    let cons = combo(&["A"], ComboType::Single, 14);
    let (best, _score) = minimax_search(&ai, &opp, 10, 10, Some(&cons), 2);
    // nothing beats a single ace here, so the only reply is PASS
    let b = best.expect("a move must be chosen");
    assert_eq!(b.combo_type, ComboType::Pass);
}

#[test]
fn ten_is_the_only_two_character_rank() {
    let hand = hand_of(&["10", "J", "Q", "K", "A"]);
    let plays = find_opponent_valid_plays(&hand, None);
    let straights: Vec<_> = plays
        .iter()
        .filter(|c| c.combo_type == ComboType::Straight)
        .collect();
    assert_eq!(straights.len(), 1);
    assert_eq!(straights[0].lead_value, 14);
}

#[test]
fn rank_two_never_joins_a_run() {
    // J,Q,K,A,2 is not a straight: "2" sits above "A" but outside runs
    let hand = hand_of(&["J", "Q", "K", "A", "2"]);
    let plays = find_opponent_valid_plays(&hand, None);
    assert!(plays.iter().all(|c| c.combo_type != ComboType::Straight));
    // and three "2"s never seed a plane
    let hand2 = hand_of(&["2", "2", "2", "A", "A", "A"]);
    let plays2 = find_opponent_valid_plays(&hand2, None);
    assert!(plays2.iter().all(|c| c.combo_type != ComboType::Plane));
}

#[test]
fn empty_hand_generates_nothing_and_estimates_pass() {
    let empty: Vec<Card> = Vec::new();
    assert!(find_opponent_valid_plays(&empty, None).is_empty());
    let resp = estimate_opponent_responses(&empty, None);
    assert_eq!(resp.len(), 1);
    assert_eq!(resp[0].combo_type, ComboType::Pass);
}

#[test]
fn pass_response_is_always_offered_under_a_constraint() {
    let cons = combo(&["2"], ComboType::Single, 15);
    let hand = hand_of(&["3", "4"]);
    // nothing beats a single "2": the generator is empty, the estimator passes
    assert!(find_opponent_valid_plays(&hand, Some(&cons)).is_empty());
    let resp = estimate_opponent_responses(&hand, Some(&cons));
    assert_eq!(resp.len(), 1);
    assert_eq!(resp[0].combo_type, ComboType::Pass);
}

#[test]
fn suits_are_kept_with_their_cards() {
    let hand = vec![card("7", "hearts"), card("7", "spades")];
    let plays = find_opponent_valid_plays(&hand, None);
    let pair = plays
        .iter()
        .find(|c| c.combo_type == ComboType::Pair)
        .expect("a pair of sevens");
    assert_eq!(pair.cards[0].suit, "hearts");
    assert_eq!(pair.cards[1].suit, "spades");
}

#[test]
fn estimator_offers_each_bomb_once() {
    // four J's answering a pair of tens: the beating pair of J's, PASS, and
    // the J bomb exactly once
    let cons = combo(&["10", "10"], ComboType::Pair, 10);
    let hand = hand_of(&["J", "J", "J", "J"]);
    let resp = estimate_opponent_responses(&hand, Some(&cons));
    assert_eq!(resp.len(), 3);
    assert_eq!(resp[0].combo_type, ComboType::Pair);
    assert_eq!(resp[0].lead_value, 11);
    assert_eq!(resp[1].combo_type, ComboType::Pass);
    assert_eq!(resp[2].combo_type, ComboType::Bomb);
    assert_eq!(resp[2].lead_value, 11);
    let bombs = resp
        .iter()
        .filter(|c| c.combo_type == ComboType::Bomb)
        .count();
    assert_eq!(bombs, 1);
}

#[test]
fn estimator_offers_the_cheapest_bomb() {
    // two four-of-a-kinds: only the pair of queens beats the lead, and the
    // bomb offered is the cheaper one, the sixes
    let cons = combo(&["10", "10"], ComboType::Pair, 10);
    let hand = hand_of(&["6", "6", "6", "6", "Q", "Q", "Q", "Q"]);
    let resp = estimate_opponent_responses(&hand, Some(&cons));
    assert_eq!(resp.len(), 3);
    assert_eq!(resp[0].combo_type, ComboType::Pair);
    assert_eq!(resp[0].lead_value, 12);
    assert_eq!(resp[1].combo_type, ComboType::Pass);
    assert_eq!(resp[2].combo_type, ComboType::Bomb);
    assert_eq!(resp[2].lead_value, 6);
}

#[test]
fn estimator_keeps_only_same_type_beaters() {
    // answering a single: the straight and the pair never appear, only
    // beating singles, PASS and the bomb
    let cons = combo(&["9"], ComboType::Single, 9);
    let hand = hand_of(&["10", "J", "4", "4", "4", "4"]);
    let resp = estimate_opponent_responses(&hand, Some(&cons));
    assert_eq!(resp.len(), 4);
    assert_eq!(resp[0].combo_type, ComboType::Single);
    assert_eq!(resp[0].lead_value, 10);
    assert_eq!(resp[1].combo_type, ComboType::Single);
    assert_eq!(resp[1].lead_value, 11);
    assert_eq!(resp[2].combo_type, ComboType::Pass);
    assert_eq!(resp[3].combo_type, ComboType::Bomb);
    assert_eq!(resp[3].lead_value, 4);
}
