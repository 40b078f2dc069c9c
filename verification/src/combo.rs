//! Combos: a legal grouping of cards played as one unit, tagged with its type
//! and the lead value that decides comparability between combos of one type.

use vstd::prelude::*;
use crate::cards::{Card, clone_cards, cnt_card, lemma_cnt_card_first_form, lemma_cnt_card_member,
    lemma_cnt_card_remove_first, remove_cards, remove_first};

verus! {

/// The closed set of combo shapes.  A PASS plays no card, costs one life
/// point, and clears the active constraint.
#[derive(Clone, Copy, Debug, PartialEq, Eq, Structural)]
pub enum ComboType {
    Single,
    Pair,
    Triple,
    Straight,
    Plane,
    Bomb,
    Pass,
}

/// A combo: the cards it plays, its shape, and its lead value (the rank
/// ordinal that decides whether it beats another combo of the same shape).
#[derive(Debug)]
pub struct Combo {
    pub cards: Vec<Card>,
    pub combo_type: ComboType,
    pub lead_value: u8,
}

/// The mathematical value of a combo: the card sequence, shape and lead value.
pub struct ComboV {
    pub cards: Seq<Card>,
    pub combo_type: ComboType,
    pub lead_value: u8,
}

impl View for Combo {
    type V = ComboV;

    open spec fn view(&self) -> ComboV {
        ComboV { cards: self.cards@, combo_type: self.combo_type, lead_value: self.lead_value }
    }
}

impl Clone for Combo {
    fn clone(&self) -> (res: Combo)
        ensures
            res@ == self@,
    {
        Combo {
            cards: clone_cards(&self.cards),
            combo_type: self.combo_type,
            lead_value: self.lead_value,
        }
    }
}

/// The view of a whole list of combos.
pub open spec fn combos_view(s: Seq<Combo>) -> Seq<ComboV> {
    Seq::new(s.len(), |i: int| s[i]@)
}

/// The PASS combo.
pub open spec fn pass_combo_v() -> ComboV {
    ComboV { cards: Seq::empty(), combo_type: ComboType::Pass, lead_value: 0 }
}

/// Builds the PASS combo.
pub fn pass_combo() -> (r: Combo)
    ensures
        r@ == pass_combo_v(),
{
    let r = Combo { cards: Vec::new(), combo_type: ComboType::Pass, lead_value: 0 };
    proof {
        assert(r@.cards =~= pass_combo_v().cards);
    }
    r
}

/// Every card of `cards` occurs there no more often than in `hand`: the combo
/// can actually be played from the hand, multiplicity included.
pub open spec fn combo_cards_within(cards: Seq<Card>, hand: Seq<Card>) -> bool {
    forall|j: int|
        0 <= j < cards.len() ==> cnt_card(cards, #[trigger] cards[j]) <= cnt_card(hand, cards[j])
}

/// Playing a combo that the hand can cover removes exactly its cards: the
/// hand shrinks by the combo's size.
pub proof fn lemma_remove_cards_len(s: Seq<Card>, cards: Seq<Card>)
    requires
        combo_cards_within(cards, s),
    ensures
        remove_cards(s, cards).len() == s.len() - cards.len(),
    decreases cards.len(),
{
    if cards.len() > 0 {
        let c = cards[0];
        lemma_cnt_card_member(cards, 0);
        assert(cnt_card(cards, c) <= cnt_card(s, c));
        lemma_cnt_card_remove_first(s, c, c);
        let s1 = remove_first(s, c);
        let rest = cards.drop_first();
        assert forall|j: int| 0 <= j < rest.len() implies cnt_card(rest, #[trigger] rest[j])
            <= cnt_card(s1, rest[j]) by {
            let x = rest[j];
            lemma_cnt_card_first_form(cards, x);
            lemma_cnt_card_remove_first(s, c, x);
            assert(cards[j + 1] == x);
            assert(cnt_card(cards, x) <= cnt_card(s, x));
        }
        lemma_remove_cards_len(s1, rest);
    }
}

} // verus!
