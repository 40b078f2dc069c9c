use mcts_rust::cards::Card;
use mcts_rust::combo::{Combo, ComboType};
use mcts_rust::playout::{simulate_playout, simulate_playouts_parallel};

fn card(rank: &str, suit: &str) -> Card {
    Card {
        rank: rank.to_string(),
        suit: suit.to_string(),
    }
}

fn hand_of(ranks: &[&str]) -> Vec<Card> {
    let suits = ["S", "H", "D", "C"];
    let mut out = Vec::new();
    for (i, r) in ranks.iter().enumerate() {
        out.push(card(r, suits[i % 4]));
    }
    out
}

#[test]
fn fixed_seed_playouts_are_reproducible() {
    let ai = hand_of(&["3", "5", "5", "9", "K", "2"]);
    let opp = hand_of(&["4", "6", "6", "10", "A"]);
    for seed in [0u64, 1, 7, 0xdead_beef, u64::MAX] {
        let a = simulate_playout(&ai, &opp, 10, 10, None, None, true, false, 0, seed);
        let b = simulate_playout(&ai, &opp, 10, 10, None, None, true, false, 0, seed);
        assert_eq!(a, b);
    }
    let w1 = simulate_playouts_parallel(&ai, &opp, 10, 10, None, None, true, 64, false, 0, 42);
    let w2 = simulate_playouts_parallel(&ai, &opp, 10, 10, None, None, true, 64, false, 0, 42);
    assert_eq!(w1, w2);
}

#[test]
fn empty_ai_hand_wins_every_trial() {
    let empty: Vec<Card> = Vec::new();
    let opp = hand_of(&["4", "6", "10"]);
    for trials in [0usize, 1, 5, 33] {
        let w = simulate_playouts_parallel(&empty, &opp, 10, 10, None, None, true, trials, false, 0, 9);
        assert_eq!(w, trials);
        let w2 =
            simulate_playouts_parallel(&empty, &opp, 10, 10, None, None, false, trials, true, 4, 9);
        assert_eq!(w2, trials);
    }
}

#[test]
fn forced_last_card_wins_the_playout() {
    // the AI opens with its lone card and wins at once, whatever the seed
    let ai = hand_of(&["3"]);
    let opp = hand_of(&["4", "5"]);
    for seed in 0u64..16 {
        assert!(simulate_playout(&ai, &opp, 10, 10, None, None, true, false, 0, seed));
    }
}

#[test]
fn alpha_beta_mode_matches_the_strict_search() {
    let ai = hand_of(&["3"]);
    let opp = hand_of(&["4", "5"]);
    assert!(simulate_playout(&ai, &opp, 10, 10, None, None, true, true, 2, 0));
    // the mirrored position is lost for the AI: the opponent shed first
    let ai2 = hand_of(&["4", "5"]);
    let opp2: Vec<Card> = Vec::new();
    assert!(!simulate_playout(&ai2, &opp2, 10, 10, None, None, true, true, 2, 0));
}

#[test]
fn prior_play_is_applied_before_the_trial() {
    let ai = hand_of(&["7", "7"]);
    let opp = hand_of(&["4"]);
    let prior = hand_of(&["7", "7"]);
    // the prior pair empties the AI hand: every trial is an immediate win
    let w = simulate_playouts_parallel(&ai, &opp, 10, 10, Some(&prior), None, false, 9, false, 0, 3);
    assert_eq!(w, 9);
}

#[test]
fn playout_respects_an_unbeatable_constraint() {
    // the AI must answer a single "2" with its lone "3": it can only pass,
    // and passing clears the constraint; the game still runs to an end.
    let ai = hand_of(&["3"]);
    let opp = hand_of(&["4"]);
    let cons = Combo {
        cards: hand_of(&["2"]),
        combo_type: ComboType::Single,
        lead_value: 15,
    };
    let r = simulate_playout(&ai, &opp, 1, 10, None, Some(&cons), true, false, 0, 5);
    // after the forced pass the AI is dead (HP was 1): a loss
    assert!(!r);
}
