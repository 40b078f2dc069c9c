//! Cards, rank ordering, and the counting model that the whole engine rests on.
//!
//! A card is a pair of free-form labels; only the rank label affects legality.
//! Every rank label maps to an ordinal through `card_value`: "3".."10" and
//! "J","Q","K","A","2" map to 3..15, any other label maps to 0 (a documented
//! leniency, not an error).  All generation and evaluation logic works on
//! per-ordinal counts of a hand, specified by `cnt_ord`.

use vstd::prelude::*;

verus! {

/// A playing card.  Identity is the pair (rank, suit); the suit never affects
/// legality, only which physical card leaves a hand.
#[derive(Debug)]
pub struct Card {
    pub rank: String,
    pub suit: String,
}

impl Clone for Card {
    fn clone(&self) -> (res: Card)
        ensures
            res == *self,
    {
        Card { rank: self.rank.clone(), suit: self.suit.clone() }
    }
}

/// Two cards are the same card when both labels agree character for character.
pub open spec fn spec_card_eq(a: Card, b: Card) -> bool {
    a.rank@ == b.rank@ && a.suit@ == b.suit@
}

/// Ordinal of a single-character rank label.
pub open spec fn rank_ord_char(c: char) -> u8 {
    if c == '3' {
        3
    } else if c == '4' {
        4
    } else if c == '5' {
        5
    } else if c == '6' {
        6
    } else if c == '7' {
        7
    } else if c == '8' {
        8
    } else if c == '9' {
        9
    } else if c == 'J' {
        11
    } else if c == 'Q' {
        12
    } else if c == 'K' {
        13
    } else if c == 'A' {
        14
    } else if c == '2' {
        15
    } else {
        0
    }
}

/// Ordinal of a rank label: the total order 3 < 4 < ... < 10 < J < Q < K < A < 2
/// mapped to 3..15; unknown labels map to 0.
pub open spec fn rank_ord(s: Seq<char>) -> u8 {
    if s.len() == 1 {
        rank_ord_char(s[0])
    } else if s.len() == 2 && s[0] == '1' && s[1] == '0' {
        10
    } else {
        0
    }
}

/// Ordinal of a card's rank label.
pub open spec fn card_ord(c: Card) -> u8 {
    rank_ord(c.rank@)
}

/// Rank ordering: label to ordinal, total and pure.
pub fn card_value(rank: &str) -> (v: u8)
    ensures
        v == rank_ord(rank@),
{
    let n = rank.unicode_len();
    if n == 1 {
        let c = rank.get_char(0);
        if c == '3' {
            3
        } else if c == '4' {
            4
        } else if c == '5' {
            5
        } else if c == '6' {
            6
        } else if c == '7' {
            7
        } else if c == '8' {
            8
        } else if c == '9' {
            9
        } else if c == 'J' {
            11
        } else if c == 'Q' {
            12
        } else if c == 'K' {
            13
        } else if c == 'A' {
            14
        } else if c == '2' {
            15
        } else {
            0
        }
    } else if n == 2 {
        let c0 = rank.get_char(0);
        let c1 = rank.get_char(1);
        if c0 == '1' && c1 == '0' {
            10
        } else {
            0
        }
    } else {
        0
    }
}

/// The rank ordering is strictly increasing along the thirteen labels
/// "3","4","5","6","7","8","9","10","J","Q","K","A","2": their ordinals are
/// 3,4,5,6,7,8,9,10,11,12,13,14,15 in that order, with "2" the highest at 15.
pub proof fn lemma_rank_order_strictly_increasing()
    ensures
        rank_ord("3"@) == 3,
        rank_ord("4"@) == 4,
        rank_ord("5"@) == 5,
        rank_ord("6"@) == 6,
        rank_ord("7"@) == 7,
        rank_ord("8"@) == 8,
        rank_ord("9"@) == 9,
        rank_ord("10"@) == 10,
        rank_ord("J"@) == 11,
        rank_ord("Q"@) == 12,
        rank_ord("K"@) == 13,
        rank_ord("A"@) == 14,
        rank_ord("2"@) == 15,
{
    reveal_strlit("3");
    reveal_strlit("4");
    reveal_strlit("5");
    reveal_strlit("6");
    reveal_strlit("7");
    reveal_strlit("8");
    reveal_strlit("9");
    reveal_strlit("10");
    reveal_strlit("J");
    reveal_strlit("Q");
    reveal_strlit("K");
    reveal_strlit("A");
    reveal_strlit("2");
}

/// How many cards of a hand carry rank ordinal `v`.
pub open spec fn cnt_ord(s: Seq<Card>, v: u8) -> nat
    decreases s.len(),
{
    if s.len() == 0 {
        0
    } else {
        cnt_ord(s.drop_last(), v) + if card_ord(s.last()) == v {
            1nat
        } else {
            0nat
        }
    }
}

/// How many cards of a hand are the same card as `c` (by both labels).
pub open spec fn cnt_card(s: Seq<Card>, c: Card) -> nat
    decreases s.len(),
{
    if s.len() == 0 {
        0
    } else {
        cnt_card(s.drop_last(), c) + if spec_card_eq(s.last(), c) {
            1nat
        } else {
            0nat
        }
    }
}

pub proof fn lemma_cnt_card_push(s: Seq<Card>, c: Card, d: Card)
    ensures
        cnt_card(s.push(c), d) == cnt_card(s, d) + if spec_card_eq(c, d) {
            1nat
        } else {
            0nat
        },
{
    assert(s.push(c).drop_last() =~= s);
}

pub proof fn lemma_cnt_ord_le_len(s: Seq<Card>, v: u8)
    ensures
        cnt_ord(s, v) <= s.len(),
    decreases s.len(),
{
    if s.len() > 0 {
        lemma_cnt_ord_le_len(s.drop_last(), v);
    }
}

pub proof fn lemma_cnt_card_le_len(s: Seq<Card>, c: Card)
    ensures
        cnt_card(s, c) <= s.len(),
    decreases s.len(),
{
    if s.len() > 0 {
        lemma_cnt_card_le_len(s.drop_last(), c);
    }
}

/// A card that matches `c` only adds to the count of its own ordinal.
pub proof fn lemma_cnt_card_le_cnt_ord(s: Seq<Card>, c: Card)
    ensures
        cnt_card(s, c) <= cnt_ord(s, card_ord(c)),
    decreases s.len(),
{
    if s.len() > 0 {
        lemma_cnt_card_le_cnt_ord(s.drop_last(), c);
    }
}

pub proof fn lemma_cnt_card_concat(a: Seq<Card>, b: Seq<Card>, c: Card)
    ensures
        cnt_card(a + b, c) == cnt_card(a, c) + cnt_card(b, c),
    decreases b.len(),
{
    if b.len() == 0 {
        assert(a + b =~= a);
    } else {
        lemma_cnt_card_concat(a, b.drop_last(), c);
        assert((a + b).drop_last() =~= a + b.drop_last());
        assert((a + b).last() == b.last());
    }
}

pub proof fn lemma_cnt_ord_concat(a: Seq<Card>, b: Seq<Card>, v: u8)
    ensures
        cnt_ord(a + b, v) == cnt_ord(a, v) + cnt_ord(b, v),
    decreases b.len(),
{
    if b.len() == 0 {
        assert(a + b =~= a);
    } else {
        lemma_cnt_ord_concat(a, b.drop_last(), v);
        assert((a + b).drop_last() =~= a + b.drop_last());
        assert((a + b).last() == b.last());
    }
}

/// A prefix of a hand holds a card at most as often as the whole hand.
pub proof fn lemma_cnt_card_take_le(s: Seq<Card>, k: int, c: Card)
    requires
        0 <= k <= s.len(),
    ensures
        cnt_card(s.take(k), c) <= cnt_card(s, c),
    decreases s.len(),
{
    if k == s.len() {
        assert(s.take(k) =~= s);
    } else if s.len() > 0 {
        lemma_cnt_card_take_le(s.drop_last(), k, c);
        assert(s.drop_last().take(k) =~= s.take(k));
    }
}

/// A card of the hand is held at least once.
pub proof fn lemma_cnt_card_member(s: Seq<Card>, i: int)
    requires
        0 <= i < s.len(),
    ensures
        cnt_card(s, s[i]) >= 1,
    decreases s.len(),
{
    if i == s.len() - 1 {
        assert(spec_card_eq(s.last(), s[i]));
    } else {
        lemma_cnt_card_member(s.drop_last(), i);
        assert(s.drop_last()[i] == s[i]);
    }
}

/// A hand with no card of ordinal `v` counts zero at `v`.
pub proof fn lemma_cnt_ord_zero(s: Seq<Card>, v: u8)
    requires
        forall|i: int| 0 <= i < s.len() ==> card_ord(#[trigger] s[i]) != v,
    ensures
        cnt_ord(s, v) == 0,
    decreases s.len(),
{
    if s.len() > 0 {
        lemma_cnt_ord_zero(s.drop_last(), v);
    }
}

/// Removal never grows a hand.
pub proof fn lemma_remove_first_le(s: Seq<Card>, c: Card)
    ensures
        remove_first(s, c).len() <= s.len(),
    decreases s.len(),
{
    if s.len() > 0 && !spec_card_eq(s[0], c) {
        lemma_remove_first_le(s.drop_first(), c);
    }
}

pub proof fn lemma_remove_cards_le(s: Seq<Card>, cards: Seq<Card>)
    ensures
        remove_cards(s, cards).len() <= s.len(),
    decreases cards.len(),
{
    if cards.len() > 0 {
        lemma_remove_first_le(s, cards[0]);
        lemma_remove_cards_le(remove_first(s, cards[0]), cards.drop_first());
    }
}

pub proof fn lemma_cnt_card_singleton(a: Card, c: Card)
    ensures
        cnt_card(seq![a], c) == if spec_card_eq(a, c) {
            1nat
        } else {
            0nat
        },
{
    assert(seq![a].drop_last() =~= Seq::<Card>::empty());
    assert(cnt_card(Seq::<Card>::empty(), c) == 0);
    assert(seq![a].last() == a);
}

/// Removing the first match of `c` lowers the count of every card matching
/// `c` by one and leaves every other count alone.
pub proof fn lemma_cnt_card_remove_first(s: Seq<Card>, c: Card, x: Card)
    requires
        cnt_card(s, c) >= 1,
    ensures
        remove_first(s, c).len() == s.len() - 1,
        cnt_card(remove_first(s, c), x) == cnt_card(s, x) - if spec_card_eq(c, x) {
            1int
        } else {
            0int
        },
    decreases s.len(),
{
    lemma_cnt_card_first_form(s, c);
    if spec_card_eq(s[0], c) {
        assert(remove_first(s, c) == s.drop_first());
        assert(s =~= seq![s[0]] + s.drop_first());
        lemma_cnt_card_concat(seq![s[0]], s.drop_first(), x);
        lemma_cnt_card_singleton(s[0], x);
        assert(spec_card_eq(s[0], x) == spec_card_eq(c, x));
    } else {
        assert(remove_first(s, c) == seq![s[0]] + remove_first(s.drop_first(), c));
        assert(s =~= seq![s[0]] + s.drop_first());
        lemma_cnt_card_concat(seq![s[0]], s.drop_first(), c);
        lemma_cnt_card_singleton(s[0], c);
        lemma_cnt_card_remove_first(s.drop_first(), c, x);
        lemma_cnt_card_concat(seq![s[0]], remove_first(s.drop_first(), c), x);
        lemma_cnt_card_concat(seq![s[0]], s.drop_first(), x);
        lemma_cnt_card_singleton(s[0], x);
    }
}

/// `cnt_card` seen from the front: the first element contributes, the rest
/// recurse.
pub proof fn lemma_cnt_card_first_form(s: Seq<Card>, c: Card)
    requires
        s.len() > 0,
    ensures
        cnt_card(s, c) == cnt_card(s.drop_first(), c) + if spec_card_eq(s[0], c) {
            1nat
        } else {
            0nat
        },
{
    assert(s =~= seq![s[0]] + s.drop_first());
    lemma_cnt_card_concat(seq![s[0]], s.drop_first(), c);
    lemma_cnt_card_singleton(s[0], c);
}

/// Per-ordinal counts of a hand: `counts[v]` is the number of cards whose rank
/// ordinal is `v`, for every ordinal 0..15.
pub fn rank_counts(hand: &Vec<Card>) -> (counts: Vec<usize>)
    ensures
        counts@.len() == 16,
        forall|v: u8| v < 16 ==> counts@[v as int] == cnt_ord(hand@, v),
{
    let mut counts: Vec<usize> = Vec::new();
    let mut k: usize = 0;
    while k < 16
        invariant
            counts@.len() == k,
            k <= 16,
            forall|j: int| 0 <= j < k ==> counts@[j] == 0,
        decreases 16 - k,
    {
        counts.push(0);
        k = k + 1;
    }
    assert(forall|v: u8| v < 16 ==> cnt_ord(hand@.take(0), v) == 0);
    let n = hand.len();
    let mut i: usize = 0;
    while i < n
        invariant
            n == hand@.len(),
            i <= n,
            counts@.len() == 16,
            forall|v: u8| v < 16 ==> counts@[v as int] == cnt_ord(hand@.take(i as int), v),
        decreases n - i,
    {
        let v = card_value(hand[i].rank.as_str()) as usize;
        assert(v < 16);
        proof {
            assert(hand@.take(i + 1).drop_last() =~= hand@.take(i as int));
            assert(hand@.take(i + 1).last() == hand@[i as int]);
            lemma_cnt_ord_le_len(hand@.take(i as int), card_ord(hand@[i as int]));
        }
        let old_c = counts[v];
        counts.set(v, old_c + 1);
        proof {
            assert forall|w: u8| w < 16 implies counts@[w as int] == cnt_ord(
                hand@.take(i + 1),
                w,
            ) by {
                assert(hand@.take(i + 1).drop_last() =~= hand@.take(i as int));
            }
        }
        i = i + 1;
    }
    proof {
        assert(hand@.take(n as int) =~= hand@);
    }
    counts
}

/// The hand with the first card matching `c` (by both labels) taken out;
/// the hand unchanged when no card matches.
pub open spec fn remove_first(s: Seq<Card>, c: Card) -> Seq<Card>
    decreases s.len(),
{
    if s.len() == 0 {
        s
    } else if spec_card_eq(s[0], c) {
        s.drop_first()
    } else {
        seq![s[0]] + remove_first(s.drop_first(), c)
    }
}

/// The hand with the cards of `cards` taken out one by one, each by a
/// first-match scan.
pub open spec fn remove_cards(s: Seq<Card>, cards: Seq<Card>) -> Seq<Card>
    decreases cards.len(),
{
    if cards.len() == 0 {
        s
    } else {
        remove_cards(remove_first(s, cards[0]), cards.drop_first())
    }
}

/// Characterizes `remove_first` at a concrete match position: if nothing
/// before `j` matches and position `j` matches, the removal drops exactly
/// position `j`.
pub proof fn lemma_remove_first_at(s: Seq<Card>, c: Card, j: int)
    requires
        0 <= j < s.len(),
        spec_card_eq(s[j], c),
        forall|k: int| 0 <= k < j ==> !spec_card_eq(s[k], c),
    ensures
        remove_first(s, c) =~= s.take(j) + s.skip(j + 1),
    decreases j,
{
    if j == 0 {
        assert(remove_first(s, c) == s.drop_first());
        assert(s.drop_first() =~= s.take(0) + s.skip(1));
    } else {
        assert(!spec_card_eq(s[0], c));
        lemma_remove_first_at(s.drop_first(), c, j - 1);
        assert(remove_first(s, c) == seq![s[0]] + remove_first(s.drop_first(), c));
        assert(s.drop_first().take(j - 1) =~= s.take(j).drop_first());
        assert(s.drop_first().skip(j) =~= s.skip(j + 1));
        assert(seq![s[0]] + (s.drop_first().take(j - 1) + s.drop_first().skip(j)) =~= s.take(j)
            + s.skip(j + 1));
    }
}

/// When no card matches, `remove_first` leaves the hand unchanged.
pub proof fn lemma_remove_first_absent(s: Seq<Card>, c: Card)
    requires
        forall|k: int| 0 <= k < s.len() ==> !spec_card_eq(s[k], c),
    ensures
        remove_first(s, c) == s,
    decreases s.len(),
{
    if s.len() > 0 {
        lemma_remove_first_absent(s.drop_first(), c);
        assert(seq![s[0]] + s.drop_first() =~= s);
    }
}

/// Takes the first card equal to `c` (rank and suit both) out of `hand`.
pub fn remove_one_card(hand: &mut Vec<Card>, c: &Card)
    ensures
        final(hand)@ == remove_first(old(hand)@, *c),
{
    let ghost s = hand@;
    let n = hand.len();
    let mut j: usize = 0;
    while j < n
        invariant
            n == s.len(),
            old(hand)@ == s,
            hand@ == s,
            j <= n,
            forall|k: int| 0 <= k < j ==> !spec_card_eq(s[k], *c),
        decreases n - j,
    {
        let same = hand[j].rank == c.rank && hand[j].suit == c.suit;
        if same {
            hand.remove(j);
            proof {
                lemma_remove_first_at(s, *c, j as int);
                assert(s.remove(j as int) =~= s.take(j as int) + s.skip(j + 1));
                assert(hand@ =~= remove_first(s, *c));
            }
            return ;
        }
        j = j + 1;
    }
    proof {
        lemma_remove_first_absent(s, *c);
    }
}

/// The hand left after playing `cards`: each card of `cards` removes the first
/// matching card of the hand, in order.
pub fn remove_combo_cards(hand: &Vec<Card>, cards: &Vec<Card>) -> (r: Vec<Card>)
    ensures
        r@ == remove_cards(hand@, cards@),
{
    let mut r: Vec<Card> = clone_cards(hand);
    let n = cards.len();
    let mut i: usize = 0;
    while i < n
        invariant
            n == cards@.len(),
            i <= n,
            r@ == remove_cards(hand@, cards@.take(i as int)),
        decreases n - i,
    {
        remove_one_card(&mut r, &cards[i]);
        proof {
            lemma_remove_cards_take_step(hand@, cards@, i as int);
        }
        i = i + 1;
    }
    proof {
        assert(cards@.take(n as int) =~= cards@);
    }
    r
}

proof fn lemma_remove_cards_take_step(s: Seq<Card>, cards: Seq<Card>, i: int)
    requires
        0 <= i < cards.len(),
    ensures
        remove_cards(s, cards.take(i + 1)) == remove_first(
            remove_cards(s, cards.take(i)),
            cards[i],
        ),
    decreases i,
{
    if i == 0 {
        assert(cards.take(1).len() == 1);
        assert(cards.take(1)[0] == cards[0]);
        assert(cards.take(1).drop_first() =~= cards.take(0));
        assert(cards.take(0).len() == 0);
        assert(remove_cards(s, cards.take(1)) == remove_cards(
            remove_first(s, cards[0]),
            cards.take(1).drop_first(),
        ));
        assert(remove_cards(remove_first(s, cards[0]), cards.take(0)) == remove_first(
            s,
            cards[0],
        ));
        assert(remove_cards(s, cards.take(0)) == s);
    } else {
        let s1 = remove_first(s, cards[0]);
        let dc = cards.drop_first();
        assert(cards.take(i + 1)[0] == cards[0]);
        assert(cards.take(i + 1).drop_first() =~= dc.take(i));
        assert(cards.take(i)[0] == cards[0]);
        assert(cards.take(i).drop_first() =~= dc.take(i - 1));
        lemma_remove_cards_take_step(s1, dc, i - 1);
        assert(dc[i - 1] == cards[i]);
        assert(remove_cards(s, cards.take(i + 1)) == remove_cards(s1, dc.take(i)));
        assert(remove_cards(s, cards.take(i)) == remove_cards(s1, dc.take(i - 1)));
    }
}

/// A value-preserving copy of a hand.
pub fn clone_cards(hand: &Vec<Card>) -> (r: Vec<Card>)
    ensures
        r@ == hand@,
{
    let mut r: Vec<Card> = Vec::new();
    let n = hand.len();
    let mut i: usize = 0;
    while i < n
        invariant
            n == hand@.len(),
            i <= n,
            r@ == hand@.take(i as int),
        decreases n - i,
    {
        r.push(hand[i].clone());
        proof {
            assert(hand@.take(i + 1) =~= hand@.take(i as int).push(hand@[i as int]));
        }
        i = i + 1;
    }
    proof {
        assert(hand@.take(n as int) =~= hand@);
    }
    r
}

} // verus!
