//! The legal move generator: every combo a hand can play, optionally
//! constrained by a combo to beat.
//!
//! With no constraint it emits every single, every pair and triple, every
//! straight window of length 5 or more (rank "2" never runs), every plane
//! window of 2 or more consecutive triples, and every four-of-a-kind bomb.
//! Against a constraint it emits only same-type combos of the constraint's
//! cardinality with a larger lead value, and appends every bomb whenever the
//! constraint is not itself a bomb.  The result is pinned exactly by
//! `spec_generate`; sections are ordered by rank ordinal, so the enumeration
//! is deterministic.

use vstd::prelude::*;
use crate::cards::{Card, card_ord, card_value, cnt_card, cnt_ord, lemma_cnt_card_concat,
    lemma_cnt_card_le_cnt_ord, lemma_cnt_card_le_len, lemma_cnt_card_member, lemma_cnt_card_push,
    lemma_cnt_card_singleton, lemma_cnt_card_take_le, lemma_cnt_ord_zero, rank_counts};
use crate::combo::{Combo, ComboType, ComboV, combo_cards_within, combos_view};
use crate::eval::ranks_exactly;

verus! {

/// The cards of `s` whose rank ordinal is `v`, in hand order.
pub open spec fn filter_ord(s: Seq<Card>, v: u8) -> Seq<Card>
    decreases s.len(),
{
    if s.len() == 0 {
        Seq::empty()
    } else {
        let pre = filter_ord(s.drop_last(), v);
        if card_ord(s.last()) == v {
            pre.push(s.last())
        } else {
            pre
        }
    }
}

pub proof fn lemma_filter_ord_len(s: Seq<Card>, v: u8)
    ensures
        filter_ord(s, v).len() == cnt_ord(s, v),
    decreases s.len(),
{
    if s.len() > 0 {
        lemma_filter_ord_len(s.drop_last(), v);
    }
}

pub proof fn lemma_filter_ord_members(s: Seq<Card>, v: u8)
    ensures
        forall|i: int|
            0 <= i < filter_ord(s, v).len() ==> card_ord(#[trigger] filter_ord(s, v)[i]) == v,
    decreases s.len(),
{
    if s.len() > 0 {
        lemma_filter_ord_members(s.drop_last(), v);
        let pre = filter_ord(s.drop_last(), v);
        assert forall|i: int| 0 <= i < filter_ord(s, v).len() implies card_ord(
            #[trigger] filter_ord(s, v)[i],
        ) == v by {
            if card_ord(s.last()) == v {
                assert(filter_ord(s, v) == pre.push(s.last()));
                if i < pre.len() {
                    assert(filter_ord(s, v)[i] == pre[i]);
                } else {
                    assert(filter_ord(s, v)[i] == s.last());
                }
            } else {
                assert(filter_ord(s, v) == pre);
            }
        }
    }
}

/// A single: one card, lead value its own ordinal.
pub open spec fn single_v(c: Card) -> ComboV {
    ComboV { cards: seq![c], combo_type: ComboType::Single, lead_value: card_ord(c) }
}

/// Every single whose ordinal beats `l`, in hand order.  `l == -1` admits all.
pub open spec fn singles_above(s: Seq<Card>, l: int) -> Seq<ComboV>
    decreases s.len(),
{
    if s.len() == 0 {
        Seq::empty()
    } else {
        let pre = singles_above(s.drop_last(), l);
        if card_ord(s.last()) > l {
            pre.push(single_v(s.last()))
        } else {
            pre
        }
    }
}

/// Whether ordinal `v` yields a k-of-a-kind combo over threshold `l`.
pub open spec fn kind_ok(s: Seq<Card>, v: int, k: nat, exact: bool, l: int) -> bool {
    v > l && (if exact {
        cnt_ord(s, v as u8) == k
    } else {
        cnt_ord(s, v as u8) >= k
    })
}

/// The k-of-a-kind combo at ordinal `v`: the first k cards of that rank.
pub open spec fn kind_combo(s: Seq<Card>, v: int, k: nat, ct: ComboType) -> ComboV {
    ComboV { cards: filter_ord(s, v as u8).take(k as int), combo_type: ct, lead_value: v as u8 }
}

/// All k-of-a-kind combos at ordinals below `v`, ascending.
pub open spec fn kind_section(
    s: Seq<Card>,
    k: nat,
    exact: bool,
    l: int,
    ct: ComboType,
    v: int,
) -> Seq<ComboV>
    decreases v,
{
    if v <= 0 {
        Seq::empty()
    } else {
        kind_section(s, k, exact, l, ct, v - 1) + if kind_ok(s, v - 1, k, exact, l) {
            seq![kind_combo(s, v - 1, k, ct)]
        } else {
            Seq::empty()
        }
    }
}

/// Every ordinal of the window `lo..=hi` is held at least once.
pub open spec fn window_present(s: Seq<Card>, lo: int, hi: int) -> bool {
    forall|v: int| lo <= v <= hi ==> cnt_ord(s, #[trigger] (v as u8)) >= 1
}

/// The straight over window `lo..=hi`: the first held card of each ordinal.
pub open spec fn straight_combo(s: Seq<Card>, lo: int, hi: int) -> ComboV {
    ComboV {
        cards: Seq::new((hi - lo + 1) as nat, |i: int| filter_ord(s, (lo + i) as u8)[0]),
        combo_type: ComboType::Straight,
        lead_value: hi as u8,
    }
}

/// Whether window `lo..=hi` is an emitted straight: held throughout, inside
/// 3..=14, of the demanded length (any length of 5 or more when `len_req` is
/// negative), with a lead beating `l`.
pub open spec fn straight_ok(s: Seq<Card>, lo: int, hi: int, len_req: int, l: int) -> bool {
    3 <= lo && hi <= 14 && window_present(s, lo, hi) && (if len_req < 0 {
        hi - lo + 1 >= 5
    } else {
        hi - lo + 1 == len_req
    }) && hi > l
}

/// Straight windows starting at `lo` with ends below `hi_end`, ascending.
pub open spec fn straights_at(s: Seq<Card>, lo: int, hi_end: int, len_req: int, l: int) -> Seq<
    ComboV,
>
    decreases hi_end - lo,
{
    if hi_end <= lo {
        Seq::empty()
    } else {
        straights_at(s, lo, hi_end - 1, len_req, l) + if straight_ok(
            s,
            lo,
            hi_end - 1,
            len_req,
            l,
        ) {
            seq![straight_combo(s, lo, hi_end - 1)]
        } else {
            Seq::empty()
        }
    }
}

/// All straight windows with starts below `lo_end`, by start then end.
pub open spec fn straights_below(s: Seq<Card>, lo_end: int, len_req: int, l: int) -> Seq<ComboV>
    decreases lo_end,
{
    if lo_end <= 0 {
        Seq::empty()
    } else {
        straights_below(s, lo_end - 1, len_req, l) + straights_at(s, lo_end - 1, 15, len_req, l)
    }
}

/// Every ordinal of the window `lo..=hi` is held at least three times.
pub open spec fn window_triple(s: Seq<Card>, lo: int, hi: int) -> bool {
    forall|v: int| lo <= v <= hi ==> cnt_ord(s, #[trigger] (v as u8)) >= 3
}

/// The plane of `m` consecutive triples starting at `lo`: three cards of each
/// ordinal, ascending.
pub open spec fn plane_combo(s: Seq<Card>, lo: int, m: int) -> ComboV {
    ComboV {
        cards: Seq::new((3 * m) as nat, |i: int| filter_ord(s, (lo + i / 3) as u8)[i % 3]),
        combo_type: ComboType::Plane,
        lead_value: (lo + m - 1) as u8,
    }
}

/// Whether `m` consecutive triples from `lo` form an emitted plane: triples
/// throughout, inside 3..=14 (rank "2" never runs), of the demanded triple
/// count (any count of 2 or more when `m_req` is negative), lead beating `l`.
pub open spec fn plane_ok(s: Seq<Card>, lo: int, m: int, m_req: int, l: int) -> bool {
    3 <= lo && lo + m - 1 <= 14 && m >= 2 && window_triple(s, lo, lo + m - 1) && (m_req < 0 || m
        == m_req) && lo + m - 1 > l
}

/// Plane windows starting at `lo` with triple counts below `m_end`, ascending.
pub open spec fn planes_at(s: Seq<Card>, lo: int, m_end: int, m_req: int, l: int) -> Seq<ComboV>
    decreases m_end,
{
    if m_end <= 2 {
        Seq::empty()
    } else {
        planes_at(s, lo, m_end - 1, m_req, l) + if plane_ok(s, lo, m_end - 1, m_req, l) {
            seq![plane_combo(s, lo, m_end - 1)]
        } else {
            Seq::empty()
        }
    }
}

/// All plane windows with starts below `lo_end`, by start then length.
pub open spec fn planes_below(s: Seq<Card>, lo_end: int, m_req: int, l: int) -> Seq<ComboV>
    decreases lo_end,
{
    if lo_end <= 0 {
        Seq::empty()
    } else {
        planes_below(s, lo_end - 1, m_req, l) + planes_at(s, lo_end - 1, 15, m_req, l)
    }
}

/// The view of an optional combo to beat.
pub open spec fn opt_view(o: Option<&Combo>) -> Option<ComboV> {
    match o {
        None => None,
        Some(c) => Some(c@),
    }
}

/// Every combo the hand can legally play against the given constraint, in
/// a fixed order: with no constraint, singles in hand order, then pairs,
/// triples, straights, planes and bombs by ascending rank; with a constraint,
/// the same-type section filtered by its lead and cardinality, then every
/// bomb unless the constraint is itself a bomb.  PASS is never emitted here:
/// an empty result is the caller's signal to pass.
pub open spec fn spec_generate(s: Seq<Card>, cons: Option<ComboV>) -> Seq<ComboV> {
    match cons {
        None => singles_above(s, -1) + kind_section(s, 2, false, -1, ComboType::Pair, 16)
            + kind_section(s, 3, false, -1, ComboType::Triple, 16) + straights_below(s, 15, -1, -1)
            + planes_below(s, 15, -1, -1) + kind_section(s, 4, true, -1, ComboType::Bomb, 16),
        Some(c) => {
            let main: Seq<ComboV> = if c.combo_type == ComboType::Single {
                singles_above(s, c.lead_value as int)
            } else if c.combo_type == ComboType::Pair {
                kind_section(s, 2, false, c.lead_value as int, ComboType::Pair, 16)
            } else if c.combo_type == ComboType::Triple {
                kind_section(s, 3, false, c.lead_value as int, ComboType::Triple, 16)
            } else if c.combo_type == ComboType::Straight {
                straights_below(s, 15, c.cards.len() as int, c.lead_value as int)
            } else if c.combo_type == ComboType::Plane {
                planes_below(s, 15, c.cards.len() as int / 3, c.lead_value as int)
            } else if c.combo_type == ComboType::Bomb {
                kind_section(s, 4, true, c.lead_value as int, ComboType::Bomb, 16)
            } else {
                Seq::empty()
            };
            if c.combo_type == ComboType::Bomb {
                main
            } else {
                main + kind_section(s, 4, true, -1, ComboType::Bomb, 16)
            }
        },
    }
}

pub proof fn lemma_combos_view_push(s: Seq<Combo>, c: Combo)
    ensures
        combos_view(s.push(c)) =~= combos_view(s).push(c@),
{
}

/// The per-ordinal card groups of a hand, in hand order.
pub(crate) fn build_groups(hand: &Vec<Card>) -> (groups: Vec<Vec<Card>>)
    ensures
        groups@.len() == 16,
        forall|v: int| 0 <= v < 16 ==> (#[trigger] groups@[v])@ == filter_ord(hand@, v as u8),
{
    let mut groups: Vec<Vec<Card>> = Vec::new();
    let mut v: usize = 0;
    while v < 16
        invariant
            groups@.len() == v,
            v <= 16,
            forall|w: int| 0 <= w < v ==> (#[trigger] groups@[w])@ == filter_ord(hand@, w as u8),
        decreases 16 - v,
    {
        let mut g: Vec<Card> = Vec::new();
        let n = hand.len();
        let mut i: usize = 0;
        while i < n
            invariant
                n == hand@.len(),
                i <= n,
                v < 16,
                g@ == filter_ord(hand@.take(i as int), v as u8),
            decreases n - i,
        {
            proof {
                assert(hand@.take(i + 1).drop_last() =~= hand@.take(i as int));
                assert(hand@.take(i + 1).last() == hand@[i as int]);
            }
            if card_value(hand[i].rank.as_str()) as usize == v {
                g.push(hand[i].clone());
            }
            i = i + 1;
        }
        proof {
            assert(hand@.take(n as int) =~= hand@);
        }
        groups.push(g);
        v = v + 1;
    }
    groups
}

/// Appends every single above `l` (every single when `l` is -1).
fn push_singles(res: &mut Vec<Combo>, hand: &Vec<Card>, l: i64)
    ensures
        combos_view(final(res)@) == combos_view(old(res)@) + singles_above(hand@, l as int),
{
    let ghost base = combos_view(old(res)@);
    let n = hand.len();
    let mut i: usize = 0;
    while i < n
        invariant
            n == hand@.len(),
            i <= n,
            combos_view(res@) == base + singles_above(hand@.take(i as int), l as int),
        decreases n - i,
    {
        proof {
            assert(hand@.take(i + 1).drop_last() =~= hand@.take(i as int));
            assert(hand@.take(i + 1).last() == hand@[i as int]);
        }
        let v = card_value(hand[i].rank.as_str());
        if (v as i64) > l {
            let mut cards: Vec<Card> = Vec::new();
            cards.push(hand[i].clone());
            let c = Combo { cards, combo_type: ComboType::Single, lead_value: v };
            proof {
                assert(c@.cards =~= single_v(hand@[i as int]).cards);
                assert(c@ == single_v(hand@[i as int]));
            }
            let ghost pre = res@;
            res.push(c);
            proof {
                lemma_combos_view_push(pre, c);
                assert(combos_view(res@) =~= base + singles_above(hand@.take(i + 1), l as int));
            }
        } else {
            proof {
                assert(combos_view(res@) =~= base + singles_above(hand@.take(i + 1), l as int));
            }
        }
        i = i + 1;
    }
    proof {
        assert(hand@.take(n as int) =~= hand@);
    }
}

/// Appends the k-of-a-kind section: one combo per qualifying ordinal,
/// ascending.
fn push_kind(
    res: &mut Vec<Combo>,
    groups: &Vec<Vec<Card>>,
    k: usize,
    exact: bool,
    l: i64,
    ct: ComboType,
    Ghost(s): Ghost<Seq<Card>>,
)
    requires
        groups@.len() == 16,
        forall|v: int| 0 <= v < 16 ==> (#[trigger] groups@[v])@ == filter_ord(s, v as u8),
        1 <= k <= 4,
        ct != ComboType::Pass,
    ensures
        combos_view(final(res)@) == combos_view(old(res)@) + kind_section(
            s,
            k as nat,
            exact,
            l as int,
            ct,
            16,
        ),
{
    let ghost base = combos_view(old(res)@);
    let mut v: usize = 0;
    while v < 16
        invariant
            groups@.len() == 16,
            forall|w: int| 0 <= w < 16 ==> (#[trigger] groups@[w])@ == filter_ord(s, w as u8),
            1 <= k <= 4,
            v <= 16,
            combos_view(res@) == base + kind_section(s, k as nat, exact, l as int, ct, v as int),
        decreases 16 - v,
    {
        proof {
            lemma_filter_ord_len(s, v as u8);
        }
        let cnt = groups[v].len();
        let ok = (v as i64) > l && (if exact {
            cnt == k
        } else {
            cnt >= k
        });
        if ok {
            let mut cards: Vec<Card> = Vec::new();
            let mut j: usize = 0;
            while j < k
                invariant
                    groups@.len() == 16,
                    forall|w: int|
                        0 <= w < 16 ==> (#[trigger] groups@[w])@ == filter_ord(s, w as u8),
                    v < 16,
                    j <= k,
                    k <= groups@[v as int]@.len(),
                    cards@ == filter_ord(s, v as u8).take(k as int).take(j as int),
                decreases k - j,
            {
                proof {
                    assert(filter_ord(s, v as u8).take(k as int).take(j + 1) =~= filter_ord(
                        s,
                        v as u8,
                    ).take(k as int).take(j as int).push(filter_ord(s, v as u8)[j as int]));
                }
                cards.push(groups[v][j].clone());
                j = j + 1;
            }
            proof {
                assert(filter_ord(s, v as u8).take(k as int).take(k as int) =~= filter_ord(
                    s,
                    v as u8,
                ).take(k as int));
            }
            let c = Combo { cards, combo_type: ct, lead_value: v as u8 };
            proof {
                assert(c@ == kind_combo(s, v as int, k as nat, ct));
            }
            let ghost pre = res@;
            res.push(c);
            proof {
                lemma_combos_view_push(pre, c);
                assert(combos_view(res@) =~= base + kind_section(
                    s,
                    k as nat,
                    exact,
                    l as int,
                    ct,
                    v as int + 1,
                ));
            }
        } else {
            proof {
                assert(kind_section(s, k as nat, exact, l as int, ct, v as int + 1) =~=
                kind_section(s, k as nat, exact, l as int, ct, v as int));
                assert(combos_view(res@) =~= base + kind_section(
                    s,
                    k as nat,
                    exact,
                    l as int,
                    ct,
                    v as int + 1,
                ));
            }
        }
        v = v + 1;
    }
}

/// Appends every straight window: starts ascending, ends ascending within a
/// start.  `len_req` demands an exact window length; `None` admits any length
/// of 5 or more.
fn push_straights(
    res: &mut Vec<Combo>,
    groups: &Vec<Vec<Card>>,
    counts: &Vec<usize>,
    len_req: Option<usize>,
    l: i64,
    Ghost(s): Ghost<Seq<Card>>,
)
    requires
        groups@.len() == 16,
        forall|v: int| 0 <= v < 16 ==> (#[trigger] groups@[v])@ == filter_ord(s, v as u8),
        counts@.len() == 16,
        forall|v: u8| v < 16 ==> counts@[v as int] == cnt_ord(s, v),
    ensures
        combos_view(final(res)@) == combos_view(old(res)@) + straights_below(
            s,
            15,
            spec_len_req(len_req),
            l as int,
        ),
{
    let ghost base = combos_view(old(res)@);
    let ghost lr = spec_len_req(len_req);
    let mut lo: usize = 0;
    while lo < 15
        invariant
            groups@.len() == 16,
            forall|v: int| 0 <= v < 16 ==> (#[trigger] groups@[v])@ == filter_ord(s, v as u8),
            counts@.len() == 16,
            forall|v: u8| v < 16 ==> counts@[v as int] == cnt_ord(s, v),
            lr == spec_len_req(len_req),
            lo <= 15,
            combos_view(res@) == base + straights_below(s, lo as int, lr, l as int),
        decreases 15 - lo,
    {
        let mut hi: usize = lo;
        let mut all_present = true;
        proof {
            assert(window_present(s, lo as int, lo as int - 1));
        }
        while hi < 15
            invariant
                groups@.len() == 16,
                forall|v: int| 0 <= v < 16 ==> (#[trigger] groups@[v])@ == filter_ord(s, v as u8),
                counts@.len() == 16,
                forall|v: u8| v < 16 ==> counts@[v as int] == cnt_ord(s, v),
                lr == spec_len_req(len_req),
                lo < 15,
                lo <= hi <= 15,
                all_present == window_present(s, lo as int, hi as int - 1),
                combos_view(res@) == base + straights_below(s, lo as int, lr, l as int)
                    + straights_at(s, lo as int, hi as int, lr, l as int),
            decreases 15 - hi,
        {
            if counts[hi] == 0 {
                all_present = false;
                proof {
                    assert(cnt_ord(s, hi as u8) == 0);
                    assert(!window_present(s, lo as int, hi as int)) by {
                        assert((hi as int) as u8 == hi as u8);
                    }
                }
            } else {
                proof {
                    if window_present(s, lo as int, hi as int - 1) {
                        assert forall|v: int| lo <= v <= hi implies cnt_ord(
                            s,
                            #[trigger] (v as u8),
                        ) >= 1 by {
                            if v == hi {
                                assert((v as u8) == (hi as u8));
                            }
                        }
                    } else {
                        assert(!window_present(s, lo as int, hi as int));
                    }
                }
            }
            let length = hi + 1 - lo;
            let len_ok = match len_req {
                None => length >= 5,
                Some(n) => length == n,
            };
            let ok = all_present && lo >= 3 && len_ok && (hi as i64) > l;
            proof {
                assert(ok == straight_ok(s, lo as int, hi as int, lr, l as int));
            }
            if ok {
                let mut cards: Vec<Card> = Vec::new();
                let mut w: usize = lo;
                while w <= hi
                    invariant
                        groups@.len() == 16,
                        forall|v: int|
                            0 <= v < 16 ==> (#[trigger] groups@[v])@ == filter_ord(s, v as u8),
                        lo <= w <= hi + 1,
                        hi < 15,
                        window_present(s, lo as int, hi as int),
                        cards@.len() == w - lo,
                        forall|t: int|
                            0 <= t < w - lo ==> cards@[t] == filter_ord(s, #[trigger] ((lo + t)
                                as u8))[0],
                    decreases hi + 1 - w,
                {
                    proof {
                        lemma_filter_ord_len(s, w as u8);
                        assert(cnt_ord(s, (w as int) as u8) >= 1) by {
                            assert((w as int) as u8 == w as u8);
                        }
                    }
                    cards.push(groups[w][0].clone());
                    proof {
                        assert forall|t: int| 0 <= t < w + 1 - lo implies cards@[t] == filter_ord(
                            s,
                            #[trigger] ((lo + t) as u8),
                        )[0] by {
                            if t == w - lo {
                                assert((lo + t) as u8 == w as u8);
                            }
                        }
                    }
                    w = w + 1;
                }
                let c = Combo { cards, combo_type: ComboType::Straight, lead_value: hi as u8 };
                proof {
                    assert(c@.cards =~= straight_combo(s, lo as int, hi as int).cards);
                    assert(c@ == straight_combo(s, lo as int, hi as int));
                }
                let ghost pre = res@;
                res.push(c);
                proof {
                    lemma_combos_view_push(pre, c);
                    assert(combos_view(res@) =~= base + straights_below(s, lo as int, lr, l as int)
                        + straights_at(s, lo as int, hi as int + 1, lr, l as int));
                }
            } else {
                proof {
                    assert(combos_view(res@) =~= base + straights_below(s, lo as int, lr, l as int)
                        + straights_at(s, lo as int, hi as int + 1, lr, l as int));
                }
            }
            hi = hi + 1;
        }
        lo = lo + 1;
    }
}

/// The spec-level window-length demand: `None` means any length of 5 or more.
pub open spec fn spec_len_req(len_req: Option<usize>) -> int {
    match len_req {
        None => -1,
        Some(n) => n as int,
    }
}

/// Appends every plane window: starts ascending, triple counts ascending
/// within a start.  `m_req` demands an exact triple count; `None` admits any
/// count of 2 or more.
fn push_planes(
    res: &mut Vec<Combo>,
    groups: &Vec<Vec<Card>>,
    counts: &Vec<usize>,
    m_req: Option<usize>,
    l: i64,
    Ghost(s): Ghost<Seq<Card>>,
)
    requires
        groups@.len() == 16,
        forall|v: int| 0 <= v < 16 ==> (#[trigger] groups@[v])@ == filter_ord(s, v as u8),
        counts@.len() == 16,
        forall|v: u8| v < 16 ==> counts@[v as int] == cnt_ord(s, v),
    ensures
        combos_view(final(res)@) == combos_view(old(res)@) + planes_below(
            s,
            15,
            spec_len_req(m_req),
            l as int,
        ),
{
    let ghost base = combos_view(old(res)@);
    let ghost mr = spec_len_req(m_req);
    let mut lo: usize = 0;
    while lo < 15
        invariant
            groups@.len() == 16,
            forall|v: int| 0 <= v < 16 ==> (#[trigger] groups@[v])@ == filter_ord(s, v as u8),
            counts@.len() == 16,
            forall|v: u8| v < 16 ==> counts@[v as int] == cnt_ord(s, v),
            mr == spec_len_req(m_req),
            lo <= 15,
            combos_view(res@) == base + planes_below(s, lo as int, mr, l as int),
        decreases 15 - lo,
    {
        let mut m: usize = 2;
        let mut all_triple = counts[lo] >= 3;
        proof {
            assert((lo as int) as u8 == lo as u8);
            if all_triple {
                assert forall|v: int| lo <= v <= lo implies cnt_ord(s, #[trigger] (v as u8))
                    >= 3 by {
                    assert((v as u8) == (lo as u8));
                }
            } else {
                assert(cnt_ord(s, (lo as int) as u8) < 3);
                assert(!window_triple(s, lo as int, lo as int));
            }
        }
        while m < 15
            invariant
                groups@.len() == 16,
                forall|v: int| 0 <= v < 16 ==> (#[trigger] groups@[v])@ == filter_ord(s, v as u8),
                counts@.len() == 16,
                forall|v: u8| v < 16 ==> counts@[v as int] == cnt_ord(s, v),
                mr == spec_len_req(m_req),
                lo < 15,
                2 <= m <= 15,
                lo + m - 2 <= 14 ==> all_triple == window_triple(s, lo as int, lo + m - 2),
                lo + m - 2 > 14 ==> !all_triple,
                combos_view(res@) == base + planes_below(s, lo as int, mr, l as int) + planes_at(
                    s,
                    lo as int,
                    m as int,
                    mr,
                    l as int,
                ),
            decreases 15 - m,
        {
            let idx = lo + m - 1;
            let cnt_ok = if idx <= 14 {
                counts[idx] >= 3
            } else {
                false
            };
            let new_triple = all_triple && cnt_ok;
            proof {
                if idx <= 14 {
                    if new_triple {
                        assert forall|v: int| lo <= v <= idx implies cnt_ord(
                            s,
                            #[trigger] (v as u8),
                        ) >= 3 by {
                            if v == idx {
                                assert((v as u8) == (idx as u8));
                            }
                        }
                    } else {
                        if all_triple {
                            assert(cnt_ord(s, (idx as int) as u8) < 3) by {
                                assert((idx as int) as u8 == idx as u8);
                            }
                        }
                        assert(!window_triple(s, lo as int, idx as int));
                    }
                }
            }
            all_triple = new_triple;
            let m_ok = match m_req {
                None => true,
                Some(n) => m == n,
            };
            let ok = all_triple && lo >= 3 && idx <= 14 && m_ok && (idx as i64) > l;
            proof {
                assert(ok == plane_ok(s, lo as int, m as int, mr, l as int));
            }
            if ok {
                let mut cards: Vec<Card> = Vec::new();
                let mut w: usize = lo;
                while w <= idx
                    invariant
                        groups@.len() == 16,
                        forall|v: int|
                            0 <= v < 16 ==> (#[trigger] groups@[v])@ == filter_ord(s, v as u8),
                        lo <= w <= idx + 1,
                        idx <= 14,
                        idx == lo + m - 1,
                        2 <= m,
                        window_triple(s, lo as int, idx as int),
                        cards@.len() == 3 * (w - lo),
                        forall|t: int|
                            0 <= t < 3 * (w - lo) ==> cards@[t] == filter_ord(
                                s,
                                #[trigger] ((lo + t / 3) as u8),
                            )[t % 3],
                    decreases idx + 1 - w,
                {
                    proof {
                        lemma_filter_ord_len(s, w as u8);
                        assert(cnt_ord(s, (w as int) as u8) >= 3) by {
                            assert((w as int) as u8 == w as u8);
                        }
                    }
                    let g0 = groups[w][0].clone();
                    let g1 = groups[w][1].clone();
                    let g2 = groups[w][2].clone();
                    cards.push(g0);
                    cards.push(g1);
                    cards.push(g2);
                    proof {
                        assert forall|t: int| 0 <= t < 3 * (w + 1 - lo) implies cards@[t]
                            == filter_ord(s, #[trigger] ((lo + t / 3) as u8))[t % 3] by {
                            if t >= 3 * (w - lo) {
                                assert(t / 3 == w - lo && t % 3 == t - 3 * (w - lo)) by (nonlinear_arith)
                                    requires
                                        3 * (w - lo) <= t < 3 * (w + 1 - lo),
                                ;
                                assert((lo + t / 3) as u8 == w as u8);
                            }
                        }
                    }
                    w = w + 1;
                }
                let c = Combo { cards, combo_type: ComboType::Plane, lead_value: idx as u8 };
                proof {
                    assert(c@.cards =~= plane_combo(s, lo as int, m as int).cards);
                    assert(c@ == plane_combo(s, lo as int, m as int));
                }
                let ghost pre = res@;
                res.push(c);
                proof {
                    lemma_combos_view_push(pre, c);
                    assert(combos_view(res@) =~= base + planes_below(s, lo as int, mr, l as int)
                        + planes_at(s, lo as int, m as int + 1, mr, l as int));
                }
            } else {
                proof {
                    assert(combos_view(res@) =~= base + planes_below(s, lo as int, mr, l as int)
                        + planes_at(s, lo as int, m as int + 1, mr, l as int));
                }
            }
            m = m + 1;
        }
        lo = lo + 1;
    }
}

/// Enumerates every combo the hand can legally play against `last_combo`
/// (no constraint when it is absent).  The result is exactly
/// `spec_generate(hand, constraint)`: sound, complete and duplicate-free per
/// section, in a deterministic order.  PASS is never part of the result.
pub fn find_opponent_valid_plays(hand: &Vec<Card>, last_combo: Option<&Combo>) -> (res: Vec<Combo>)
    ensures
        combos_view(res@) == spec_generate(hand@, opt_view(last_combo)),
{
    let groups = build_groups(hand);
    let counts = rank_counts(hand);
    let mut res: Vec<Combo> = Vec::new();
    proof {
        assert(combos_view(res@) =~= Seq::<ComboV>::empty());
    }
    match last_combo {
        None => {
            push_singles(&mut res, hand, -1);
            push_kind(&mut res, &groups, 2, false, -1, ComboType::Pair, Ghost(hand@));
            push_kind(&mut res, &groups, 3, false, -1, ComboType::Triple, Ghost(hand@));
            push_straights(&mut res, &groups, &counts, None, -1, Ghost(hand@));
            push_planes(&mut res, &groups, &counts, None, -1, Ghost(hand@));
            push_kind(&mut res, &groups, 4, true, -1, ComboType::Bomb, Ghost(hand@));
            proof {
                assert(combos_view(res@) =~= spec_generate(hand@, opt_view(last_combo)));
            }
        },
        Some(c) => {
            match c.combo_type {
                ComboType::Single => {
                    push_singles(&mut res, hand, c.lead_value as i64);
                },
                ComboType::Pair => {
                    push_kind(
                        &mut res,
                        &groups,
                        2,
                        false,
                        c.lead_value as i64,
                        ComboType::Pair,
                        Ghost(hand@),
                    );
                },
                ComboType::Triple => {
                    push_kind(
                        &mut res,
                        &groups,
                        3,
                        false,
                        c.lead_value as i64,
                        ComboType::Triple,
                        Ghost(hand@),
                    );
                },
                ComboType::Straight => {
                    push_straights(
                        &mut res,
                        &groups,
                        &counts,
                        Some(c.cards.len()),
                        c.lead_value as i64,
                        Ghost(hand@),
                    );
                },
                ComboType::Plane => {
                    push_planes(
                        &mut res,
                        &groups,
                        &counts,
                        Some(c.cards.len() / 3),
                        c.lead_value as i64,
                        Ghost(hand@),
                    );
                },
                ComboType::Bomb => {
                    push_kind(
                        &mut res,
                        &groups,
                        4,
                        true,
                        c.lead_value as i64,
                        ComboType::Bomb,
                        Ghost(hand@),
                    );
                },
                ComboType::Pass => {},
            }
            if !matches!(c.combo_type, ComboType::Bomb) {
                push_kind(&mut res, &groups, 4, true, -1, ComboType::Bomb, Ghost(hand@));
            }
            proof {
                assert(combos_view(res@) =~= spec_generate(hand@, opt_view(last_combo)));
            }
        },
    }
    res
}

/// Every combo of the list can be played from `s`, multiplicity included.
pub open spec fn all_within(cs: Seq<ComboV>, s: Seq<Card>) -> bool {
    forall|i: int| 0 <= i < cs.len() ==> combo_cards_within((#[trigger] cs[i]).cards, s)
}

proof fn lemma_all_within_concat(a: Seq<ComboV>, b: Seq<ComboV>, s: Seq<Card>)
    requires
        all_within(a, s),
        all_within(b, s),
    ensures
        all_within(a + b, s),
{
    assert forall|i: int| 0 <= i < (a + b).len() implies combo_cards_within(
        (#[trigger] (a + b)[i]).cards,
        s,
    ) by {
        if i < a.len() {
            assert((a + b)[i] == a[i]);
        } else {
            assert((a + b)[i] == b[i - a.len()]);
        }
    }
}

/// `cnt_card` never rises when the reference hand loses its last card.
proof fn lemma_within_mono_drop(c: Seq<Card>, s: Seq<Card>)
    requires
        s.len() > 0,
        combo_cards_within(c, s.drop_last()),
    ensures
        combo_cards_within(c, s),
{
    assert forall|j: int| 0 <= j < c.len() implies cnt_card(c, #[trigger] c[j]) <= cnt_card(
        s,
        c[j],
    ) by {
        assert(cnt_card(s, c[j]) >= cnt_card(s.drop_last(), c[j]));
    }
}

proof fn lemma_all_within_mono_drop(cs: Seq<ComboV>, s: Seq<Card>)
    requires
        s.len() > 0,
        all_within(cs, s.drop_last()),
    ensures
        all_within(cs, s),
{
    assert forall|i: int| 0 <= i < cs.len() implies combo_cards_within(
        (#[trigger] cs[i]).cards,
        s,
    ) by {
        lemma_within_mono_drop(cs[i].cards, s);
    }
}

/// Filtering by ordinal never raises a card's count.
proof fn lemma_cnt_card_filter_le(s: Seq<Card>, v: u8, c: Card)
    ensures
        cnt_card(filter_ord(s, v), c) <= cnt_card(s, c),
    decreases s.len(),
{
    if s.len() > 0 {
        lemma_cnt_card_filter_le(s.drop_last(), v, c);
        if card_ord(s.last()) == v {
            lemma_cnt_card_push(filter_ord(s.drop_last(), v), s.last(), c);
        }
    }
}

/// The singles section: every element is a Single over the threshold, one
/// card, playable from the hand.
proof fn lemma_singles_shape(s: Seq<Card>, l: int)
    ensures
        all_within(singles_above(s, l), s),
        forall|i: int|
            0 <= i < singles_above(s, l).len() ==> {
                let c = #[trigger] singles_above(s, l)[i];
                c.combo_type == ComboType::Single && c.lead_value > l && c.cards.len() == 1
                    && cnt_ord(s, c.lead_value) >= 1
            },
    decreases s.len(),
{
    if s.len() > 0 {
        lemma_singles_shape(s.drop_last(), l);
        lemma_all_within_mono_drop(singles_above(s.drop_last(), l), s);
        let pre = singles_above(s.drop_last(), l);
        if card_ord(s.last()) > l {
            let c = single_v(s.last());
            assert(singles_above(s, l) == pre.push(c));
            lemma_cnt_card_singleton(s.last(), s.last());
            lemma_cnt_card_member(s, s.len() - 1);
            assert forall|j: int| 0 <= j < c.cards.len() implies cnt_card(
                c.cards,
                #[trigger] c.cards[j],
            ) <= cnt_card(s, c.cards[j]) by {
                assert(c.cards[j] == s.last());
                lemma_cnt_card_singleton(s.last(), c.cards[j]);
            }
            assert(cnt_ord(s, card_ord(s.last())) >= 1);
            assert forall|i: int| 0 <= i < singles_above(s, l).len() implies combo_cards_within(
                (#[trigger] singles_above(s, l)[i]).cards,
                s,
            ) by {
                if i < pre.len() {
                    assert(singles_above(s, l)[i] == pre[i]);
                } else {
                    assert(singles_above(s, l)[i] == c);
                }
            }
            assert forall|i: int| 0 <= i < singles_above(s, l).len() implies {
                let cc = #[trigger] singles_above(s, l)[i];
                cc.combo_type == ComboType::Single && cc.lead_value > l && cc.cards.len() == 1
                    && cnt_ord(s, cc.lead_value) >= 1
            } by {
                if i < pre.len() {
                    assert(singles_above(s, l)[i] == pre[i]);
                    assert(cnt_ord(s, pre[i].lead_value) >= cnt_ord(s.drop_last(), pre[i].lead_value));
                } else {
                    assert(singles_above(s, l)[i] == c);
                }
            }
        } else {
            assert(singles_above(s, l) == pre);
            assert forall|i: int| 0 <= i < pre.len() implies cnt_ord(
                s,
                (#[trigger] pre[i]).lead_value,
            ) >= 1 by {
                assert(cnt_ord(s, pre[i].lead_value) >= cnt_ord(s.drop_last(), pre[i].lead_value));
            }
        }
    }
}

/// The k-of-a-kind section: every element has the section's type, k cards,
/// a lead over the threshold held at least (exactly) k times, and is
/// playable from the hand.
proof fn lemma_kind_shape(s: Seq<Card>, k: nat, exact: bool, l: int, ct: ComboType, v: int)
    requires
        1 <= k,
        v <= 16,
    ensures
        all_within(kind_section(s, k, exact, l, ct, v), s),
        forall|i: int|
            0 <= i < kind_section(s, k, exact, l, ct, v).len() ==> {
                let c = #[trigger] kind_section(s, k, exact, l, ct, v)[i];
                c.combo_type == ct && c.lead_value > l && c.cards.len() == k && c.lead_value < v
                    && kind_ok(s, c.lead_value as int, k, exact, l)
            },
    decreases v,
{
    if v > 0 {
        lemma_kind_shape(s, k, exact, l, ct, v - 1);
        let pre = kind_section(s, k, exact, l, ct, v - 1);
        if kind_ok(s, v - 1, k, exact, l) {
            let c = kind_combo(s, v - 1, k, ct);
            assert(kind_section(s, k, exact, l, ct, v) =~= pre.push(c));
            let f = filter_ord(s, (v - 1) as u8);
            lemma_filter_ord_len(s, (v - 1) as u8);
            assert(f.len() >= k);
            assert(c.cards.len() == k);
            assert forall|j: int| 0 <= j < c.cards.len() implies cnt_card(
                c.cards,
                #[trigger] c.cards[j],
            ) <= cnt_card(s, c.cards[j]) by {
                lemma_cnt_card_take_le(f, k as int, c.cards[j]);
                lemma_cnt_card_filter_le(s, (v - 1) as u8, c.cards[j]);
            }
            assert((v - 1) as u8 as int == v - 1);
            assert forall|i: int| 0 <= i < kind_section(s, k, exact, l, ct, v).len() implies
                combo_cards_within((#[trigger] kind_section(s, k, exact, l, ct, v)[i]).cards, s) by {
                if i < pre.len() {
                    assert(kind_section(s, k, exact, l, ct, v)[i] == pre[i]);
                } else {
                    assert(kind_section(s, k, exact, l, ct, v)[i] == c);
                }
            }
            assert forall|i: int| 0 <= i < kind_section(s, k, exact, l, ct, v).len() implies {
                let cc = #[trigger] kind_section(s, k, exact, l, ct, v)[i];
                cc.combo_type == ct && cc.lead_value > l && cc.cards.len() == k && cc.lead_value < v
                    && kind_ok(s, cc.lead_value as int, k, exact, l)
            } by {
                if i < pre.len() {
                    assert(kind_section(s, k, exact, l, ct, v)[i] == pre[i]);
                } else {
                    assert(kind_section(s, k, exact, l, ct, v)[i] == c);
                }
            }
        } else {
            assert(kind_section(s, k, exact, l, ct, v) =~= pre);
        }
    }
}

/// Cards at consecutive ordinals from `lo` hold each ordinal at most once.
proof fn lemma_cnt_ord_consecutive(t: Seq<Card>, lo: int)
    requires
        0 <= lo,
        lo + t.len() <= 255,
        forall|i: int| 0 <= i < t.len() ==> card_ord(#[trigger] t[i]) == (lo + i) as u8,
    ensures
        forall|u: u8| cnt_ord(t, u) <= 1,
    decreases t.len(),
{
    if t.len() > 0 {
        let pre = t.drop_last();
        assert(forall|i: int| 0 <= i < pre.len() ==> card_ord(#[trigger] pre[i]) == (lo + i) as u8);
        lemma_cnt_ord_consecutive(pre, lo);
        let last_ord = (lo + t.len() - 1) as u8;
        assert forall|i: int| 0 <= i < pre.len() implies card_ord(#[trigger] pre[i])
            != last_ord by {
            assert(card_ord(pre[i]) == (lo + i) as u8);
            assert(lo + i < lo + t.len() - 1);
        }
        lemma_cnt_ord_zero(pre, last_ord);
        assert forall|u: u8| cnt_ord(t, u) <= 1 by {
            assert(cnt_ord(t, u) == cnt_ord(pre, u) + if card_ord(t.last()) == u {
                1nat
            } else {
                0nat
            });
        }
    }
}

/// A straight window's combo is playable from the hand.
proof fn lemma_straight_combo_sound(s: Seq<Card>, lo: int, hi: int)
    requires
        0 <= lo <= hi <= 14,
        window_present(s, lo, hi),
    ensures
        combo_cards_within(straight_combo(s, lo, hi).cards, s),
{
    let t = straight_combo(s, lo, hi).cards;
    assert forall|i: int| 0 <= i < t.len() implies card_ord(#[trigger] t[i]) == (lo + i) as u8 by {
        lemma_filter_ord_len(s, (lo + i) as u8);
        assert(cnt_ord(s, (lo + i) as u8) >= 1);
        lemma_filter_ord_members(s, (lo + i) as u8);
    }
    lemma_cnt_ord_consecutive(t, lo);
    assert forall|j: int| 0 <= j < t.len() implies cnt_card(t, #[trigger] t[j]) <= cnt_card(
        s,
        t[j],
    ) by {
        lemma_cnt_card_le_cnt_ord(t, t[j]);
        assert(cnt_card(t, t[j]) <= 1);
        let u = (lo + j) as u8;
        lemma_filter_ord_len(s, u);
        assert(t[j] == filter_ord(s, u)[0]);
        lemma_cnt_card_member(filter_ord(s, u), 0);
        lemma_cnt_card_filter_le(s, u, t[j]);
    }
}

/// The straight windows at one start: every element is a straight with that
/// window's shape, lead over the threshold, playable from the hand.
proof fn lemma_straights_at_shape(s: Seq<Card>, lo: int, hi_end: int, len_req: int, l: int)
    requires
        0 <= lo,
    ensures
        all_within(straights_at(s, lo, hi_end, len_req, l), s),
        forall|i: int|
            0 <= i < straights_at(s, lo, hi_end, len_req, l).len() ==> {
                let c = #[trigger] straights_at(s, lo, hi_end, len_req, l)[i];
                c.combo_type == ComboType::Straight && c.lead_value > l && c.cards.len() >= 1
                    && c.cards.len() <= 12
            },
    decreases hi_end - lo,
{
    if hi_end > lo {
        lemma_straights_at_shape(s, lo, hi_end - 1, len_req, l);
        let pre = straights_at(s, lo, hi_end - 1, len_req, l);
        if straight_ok(s, lo, hi_end - 1, len_req, l) {
            let c = straight_combo(s, lo, hi_end - 1);
            lemma_straight_combo_sound(s, lo, hi_end - 1);
            assert(straights_at(s, lo, hi_end, len_req, l) =~= pre.push(c));
            assert forall|i: int| 0 <= i < straights_at(s, lo, hi_end, len_req, l).len() implies
                combo_cards_within(
                (#[trigger] straights_at(s, lo, hi_end, len_req, l)[i]).cards,
                s,
            ) by {
                if i < pre.len() {
                    assert(straights_at(s, lo, hi_end, len_req, l)[i] == pre[i]);
                } else {
                    assert(straights_at(s, lo, hi_end, len_req, l)[i] == c);
                }
            }
            assert forall|i: int| 0 <= i < straights_at(s, lo, hi_end, len_req, l).len() implies {
                let cc = #[trigger] straights_at(s, lo, hi_end, len_req, l)[i];
                cc.combo_type == ComboType::Straight && cc.lead_value > l && cc.cards.len() >= 1
                    && cc.cards.len() <= 12
            } by {
                if i < pre.len() {
                    assert(straights_at(s, lo, hi_end, len_req, l)[i] == pre[i]);
                } else {
                    assert(straights_at(s, lo, hi_end, len_req, l)[i] == c);
                }
            }
        } else {
            assert(straights_at(s, lo, hi_end, len_req, l) =~= pre);
        }
    }
}

proof fn lemma_straights_below_shape(s: Seq<Card>, lo_end: int, len_req: int, l: int)
    ensures
        all_within(straights_below(s, lo_end, len_req, l), s),
        forall|i: int|
            0 <= i < straights_below(s, lo_end, len_req, l).len() ==> {
                let c = #[trigger] straights_below(s, lo_end, len_req, l)[i];
                c.combo_type == ComboType::Straight && c.lead_value > l && c.cards.len() >= 1
                    && c.cards.len() <= 12
            },
    decreases lo_end,
{
    if lo_end > 0 {
        lemma_straights_below_shape(s, lo_end - 1, len_req, l);
        lemma_straights_at_shape(s, lo_end - 1, 15, len_req, l);
        let a = straights_below(s, lo_end - 1, len_req, l);
        let b = straights_at(s, lo_end - 1, 15, len_req, l);
        lemma_all_within_concat(a, b, s);
        assert forall|i: int| 0 <= i < (a + b).len() implies {
            let c = #[trigger] (a + b)[i];
            c.combo_type == ComboType::Straight && c.lead_value > l && c.cards.len() >= 1
                && c.cards.len() <= 12
        } by {
            if i < a.len() {
                assert((a + b)[i] == a[i]);
            } else {
                assert((a + b)[i] == b[i - a.len()]);
            }
        }
    }
}

/// The plane cards as consecutive blocks of three, for induction.
pub open spec fn plane_blocks(s: Seq<Card>, lo: int, w: int) -> Seq<Card>
    decreases w - lo,
{
    if w <= lo {
        Seq::empty()
    } else {
        plane_blocks(s, lo, w - 1) + filter_ord(s, (w - 1) as u8).take(3)
    }
}

proof fn lemma_plane_blocks_eq(s: Seq<Card>, lo: int, m: int)
    requires
        0 <= lo,
        lo + m <= 15,
        m >= 0,
        window_triple(s, lo, lo + m - 1),
    ensures
        plane_blocks(s, lo, lo + m) =~= plane_combo(s, lo, m).cards,
    decreases m,
{
    if m > 0 {
        assert(window_triple(s, lo, lo + m - 2)) by {
            assert forall|v: int| lo <= v <= lo + m - 2 implies cnt_ord(s, #[trigger] (v as u8))
                >= 3 by {
                assert(cnt_ord(s, (v as u8)) >= 3);
            }
        }
        lemma_plane_blocks_eq(s, lo, m - 1);
        let w = lo + m - 1;
        let f = filter_ord(s, w as u8);
        assert(cnt_ord(s, (w as int) as u8) >= 3) by {
            assert((w as int) as u8 == w as u8);
        }
        lemma_filter_ord_len(s, w as u8);
        let b = plane_blocks(s, lo, lo + m);
        assert(b == plane_blocks(s, lo, w) + f.take(3));
        assert(plane_combo(s, lo, m - 1).cards.len() == 3 * (m - 1));
        assert(b.len() == 3 * m);
        assert forall|p: int| 0 <= p < 3 * m implies b[p] == filter_ord(
            s,
            #[trigger] ((lo + p / 3) as u8),
        )[p % 3] by {
            if p < 3 * (m - 1) {
                assert(b[p] == plane_blocks(s, lo, w)[p]);
                assert(plane_combo(s, lo, m - 1).cards[p] == filter_ord(
                    s,
                    ((lo + p / 3) as u8),
                )[p % 3]);
            } else {
                assert(b[p] == f.take(3)[p - 3 * (m - 1)]);
                assert(p / 3 == m - 1 && p % 3 == p - 3 * (m - 1)) by (nonlinear_arith)
                    requires
                        3 * (m - 1) <= p < 3 * m,
                ;
                assert((lo + p / 3) as u8 == w as u8);
                assert(f.take(3)[p - 3 * (m - 1)] == f[p - 3 * (m - 1)]);
            }
        }
    }
}

/// Block counting: a card occurs in the blocks at most as often as in its
/// own ordinal's group.
proof fn lemma_plane_blocks_cnt(s: Seq<Card>, lo: int, w: int, x: Card)
    requires
        0 <= lo,
        w <= 15,
        window_triple(s, lo, w - 1),
    ensures
        cnt_card(plane_blocks(s, lo, w), x) <= cnt_card(filter_ord(s, card_ord(x)), x),
    decreases w - lo,
{
    if w <= lo {
        assert(cnt_card(plane_blocks(s, lo, w), x) == 0);
        lemma_cnt_card_le_len(filter_ord(s, card_ord(x)), x);
    } else {
        assert(window_triple(s, lo, w - 2)) by {
            assert forall|v: int| lo <= v <= w - 2 implies cnt_ord(s, #[trigger] (v as u8)) >= 3 by {
                assert(cnt_ord(s, (v as u8)) >= 3);
            }
        }
        lemma_plane_blocks_cnt(s, lo, w - 1, x);
        let u = (w - 1) as u8;
        let f = filter_ord(s, u);
        assert(cnt_ord(s, ((w - 1) as int) as u8) >= 3) by {
            assert(((w - 1) as int) as u8 == u);
        }
        lemma_filter_ord_len(s, u);
        let blk = f.take(3);
        lemma_cnt_card_concat(plane_blocks(s, lo, w - 1), blk, x);
        lemma_filter_ord_members(s, u);
        if card_ord(x) == u {
            // the earlier blocks hold no card of this ordinal
            lemma_blocks_ord_zero(s, lo, w - 1, u);
            lemma_cnt_card_le_cnt_ord(plane_blocks(s, lo, w - 1), x);
            lemma_cnt_card_take_le(f, 3, x);
        } else {
            assert forall|i: int| 0 <= i < blk.len() implies card_ord(#[trigger] blk[i])
                != card_ord(x) by {
                assert(blk[i] == f[i]);
            }
            lemma_cnt_ord_zero(blk, card_ord(x));
            lemma_cnt_card_le_cnt_ord(blk, x);
        }
    }
}

/// Blocks below `w` hold no card at ordinal `u` or beyond.
proof fn lemma_blocks_ord_zero(s: Seq<Card>, lo: int, w: int, u: u8)
    requires
        0 <= lo,
        w <= 15,
        w <= u,
        window_triple(s, lo, w - 1),
    ensures
        cnt_ord(plane_blocks(s, lo, w), u) == 0,
    decreases w - lo,
{
    if w > lo {
        assert(window_triple(s, lo, w - 2)) by {
            assert forall|v: int| lo <= v <= w - 2 implies cnt_ord(s, #[trigger] (v as u8)) >= 3 by {
                assert(cnt_ord(s, (v as u8)) >= 3);
            }
        }
        lemma_blocks_ord_zero(s, lo, w - 1, u);
        let uu = (w - 1) as u8;
        let f = filter_ord(s, uu);
        assert(cnt_ord(s, ((w - 1) as int) as u8) >= 3) by {
            assert(((w - 1) as int) as u8 == uu);
        }
        lemma_filter_ord_len(s, uu);
        let blk = f.take(3);
        lemma_filter_ord_members(s, uu);
        assert forall|i: int| 0 <= i < blk.len() implies card_ord(#[trigger] blk[i]) != u by {
            assert(blk[i] == f[i]);
            assert(card_ord(blk[i]) == uu);
        }
        lemma_cnt_ord_zero(blk, u);
        crate::cards::lemma_cnt_ord_concat(plane_blocks(s, lo, w - 1), blk, u);
    }
}

/// A plane window's combo is playable from the hand.
proof fn lemma_plane_combo_sound(s: Seq<Card>, lo: int, m: int)
    requires
        0 <= lo,
        m >= 0,
        lo + m <= 15,
        window_triple(s, lo, lo + m - 1),
    ensures
        combo_cards_within(plane_combo(s, lo, m).cards, s),
{
    let t = plane_combo(s, lo, m).cards;
    lemma_plane_blocks_eq(s, lo, m);
    assert forall|j: int| 0 <= j < t.len() implies cnt_card(t, #[trigger] t[j]) <= cnt_card(
        s,
        t[j],
    ) by {
        assert(plane_blocks(s, lo, lo + m) == t);
        lemma_plane_blocks_cnt(s, lo, lo + m, t[j]);
        lemma_cnt_card_filter_le(s, card_ord(t[j]), t[j]);
    }
}

proof fn lemma_planes_at_shape(s: Seq<Card>, lo: int, m_end: int, m_req: int, l: int)
    requires
        0 <= lo,
    ensures
        all_within(planes_at(s, lo, m_end, m_req, l), s),
        forall|i: int|
            0 <= i < planes_at(s, lo, m_end, m_req, l).len() ==> {
                let c = #[trigger] planes_at(s, lo, m_end, m_req, l)[i];
                c.combo_type == ComboType::Plane && c.lead_value > l && c.cards.len() >= 6
                    && c.cards.len() <= 36
            },
    decreases m_end,
{
    if m_end > 2 {
        lemma_planes_at_shape(s, lo, m_end - 1, m_req, l);
        let pre = planes_at(s, lo, m_end - 1, m_req, l);
        if plane_ok(s, lo, m_end - 1, m_req, l) {
            let c = plane_combo(s, lo, m_end - 1);
            lemma_plane_combo_sound(s, lo, m_end - 1);
            assert(planes_at(s, lo, m_end, m_req, l) =~= pre.push(c));
            assert forall|i: int| 0 <= i < planes_at(s, lo, m_end, m_req, l).len() implies
                combo_cards_within((#[trigger] planes_at(s, lo, m_end, m_req, l)[i]).cards, s) by {
                if i < pre.len() {
                    assert(planes_at(s, lo, m_end, m_req, l)[i] == pre[i]);
                } else {
                    assert(planes_at(s, lo, m_end, m_req, l)[i] == c);
                }
            }
            assert forall|i: int| 0 <= i < planes_at(s, lo, m_end, m_req, l).len() implies {
                let cc = #[trigger] planes_at(s, lo, m_end, m_req, l)[i];
                cc.combo_type == ComboType::Plane && cc.lead_value > l && cc.cards.len() >= 6
                    && cc.cards.len() <= 36
            } by {
                if i < pre.len() {
                    assert(planes_at(s, lo, m_end, m_req, l)[i] == pre[i]);
                } else {
                    assert(planes_at(s, lo, m_end, m_req, l)[i] == c);
                }
            }
        } else {
            assert(planes_at(s, lo, m_end, m_req, l) =~= pre);
        }
    }
}

proof fn lemma_planes_below_shape(s: Seq<Card>, lo_end: int, m_req: int, l: int)
    ensures
        all_within(planes_below(s, lo_end, m_req, l), s),
        forall|i: int|
            0 <= i < planes_below(s, lo_end, m_req, l).len() ==> {
                let c = #[trigger] planes_below(s, lo_end, m_req, l)[i];
                c.combo_type == ComboType::Plane && c.lead_value > l && c.cards.len() >= 6
                    && c.cards.len() <= 36
            },
    decreases lo_end,
{
    if lo_end > 0 {
        lemma_planes_below_shape(s, lo_end - 1, m_req, l);
        lemma_planes_at_shape(s, lo_end - 1, 15, m_req, l);
        let a = planes_below(s, lo_end - 1, m_req, l);
        let b = planes_at(s, lo_end - 1, 15, m_req, l);
        lemma_all_within_concat(a, b, s);
        assert forall|i: int| 0 <= i < (a + b).len() implies {
            let c = #[trigger] (a + b)[i];
            c.combo_type == ComboType::Plane && c.lead_value > l && c.cards.len() >= 6
                && c.cards.len() <= 36
        } by {
            if i < a.len() {
                assert((a + b)[i] == a[i]);
            } else {
                assert((a + b)[i] == b[i - a.len()]);
            }
        }
    }
}

/// Soundness of generation: every generated combo draws its cards from the
/// hand, each card no more often than the hand holds it; no generated combo
/// is a PASS or empty, and none holds more than 36 cards.
pub proof fn lemma_generate_sound(s: Seq<Card>, cons: Option<ComboV>)
    ensures
        all_within(spec_generate(s, cons), s),
        forall|i: int|
            0 <= i < spec_generate(s, cons).len() ==> {
                let c = #[trigger] spec_generate(s, cons)[i];
                c.combo_type != ComboType::Pass && 1 <= c.cards.len() <= 36
            },
{
    let g = spec_generate(s, cons);
    match cons {
        None => {
            let s1 = singles_above(s, -1);
            let s2 = kind_section(s, 2, false, -1, ComboType::Pair, 16);
            let s3 = kind_section(s, 3, false, -1, ComboType::Triple, 16);
            let s4 = straights_below(s, 15, -1, -1);
            let s5 = planes_below(s, 15, -1, -1);
            let s6 = kind_section(s, 4, true, -1, ComboType::Bomb, 16);
            lemma_singles_shape(s, -1);
            lemma_kind_shape(s, 2, false, -1, ComboType::Pair, 16);
            lemma_kind_shape(s, 3, false, -1, ComboType::Triple, 16);
            lemma_straights_below_shape(s, 15, -1, -1);
            lemma_planes_below_shape(s, 15, -1, -1);
            lemma_kind_shape(s, 4, true, -1, ComboType::Bomb, 16);
            lemma_all_within_concat(s1, s2, s);
            lemma_all_within_concat(s1 + s2, s3, s);
            lemma_all_within_concat(s1 + s2 + s3, s4, s);
            lemma_all_within_concat(s1 + s2 + s3 + s4, s5, s);
            lemma_all_within_concat(s1 + s2 + s3 + s4 + s5, s6, s);
            assert(g == s1 + s2 + s3 + s4 + s5 + s6);
            assert forall|i: int| 0 <= i < g.len() implies {
                let c = #[trigger] g[i];
                c.combo_type != ComboType::Pass && 1 <= c.cards.len() <= 36
            } by {
                lemma_concat6_index(s1, s2, s3, s4, s5, s6, i);
            }
        },
        Some(c) => {
            let main: Seq<ComboV> = if c.combo_type == ComboType::Single {
                singles_above(s, c.lead_value as int)
            } else if c.combo_type == ComboType::Pair {
                kind_section(s, 2, false, c.lead_value as int, ComboType::Pair, 16)
            } else if c.combo_type == ComboType::Triple {
                kind_section(s, 3, false, c.lead_value as int, ComboType::Triple, 16)
            } else if c.combo_type == ComboType::Straight {
                straights_below(s, 15, c.cards.len() as int, c.lead_value as int)
            } else if c.combo_type == ComboType::Plane {
                planes_below(s, 15, c.cards.len() as int / 3, c.lead_value as int)
            } else if c.combo_type == ComboType::Bomb {
                kind_section(s, 4, true, c.lead_value as int, ComboType::Bomb, 16)
            } else {
                Seq::empty()
            };
            lemma_singles_shape(s, c.lead_value as int);
            lemma_kind_shape(s, 2, false, c.lead_value as int, ComboType::Pair, 16);
            lemma_kind_shape(s, 3, false, c.lead_value as int, ComboType::Triple, 16);
            lemma_straights_below_shape(s, 15, c.cards.len() as int, c.lead_value as int);
            lemma_planes_below_shape(s, 15, c.cards.len() as int / 3, c.lead_value as int);
            lemma_kind_shape(s, 4, true, c.lead_value as int, ComboType::Bomb, 16);
            lemma_kind_shape(s, 4, true, -1, ComboType::Bomb, 16);
            let bombs = kind_section(s, 4, true, -1, ComboType::Bomb, 16);
            if c.combo_type == ComboType::Bomb {
                assert(g == main);
            } else {
                assert(g == main + bombs);
                lemma_all_within_concat(main, bombs, s);
                assert forall|i: int| 0 <= i < g.len() implies {
                    let cc = #[trigger] g[i];
                    cc.combo_type != ComboType::Pass && 1 <= cc.cards.len() <= 36
                } by {
                    if i < main.len() {
                        assert(g[i] == main[i]);
                    } else {
                        assert(g[i] == bombs[i - main.len()]);
                    }
                }
            }
        },
    }
}

/// How many combos of the list have type `t`.
pub open spec fn count_type(cs: Seq<ComboV>, t: ComboType) -> int
    decreases cs.len(),
{
    if cs.len() == 0 {
        0
    } else {
        count_type(cs.drop_last(), t) + if cs.last().combo_type == t {
            1int
        } else {
            0int
        }
    }
}

proof fn lemma_count_type_concat(a: Seq<ComboV>, b: Seq<ComboV>, t: ComboType)
    ensures
        count_type(a + b, t) == count_type(a, t) + count_type(b, t),
    decreases b.len(),
{
    if b.len() == 0 {
        assert(a + b =~= a);
    } else {
        lemma_count_type_concat(a, b.drop_last(), t);
        assert((a + b).drop_last() =~= a + b.drop_last());
        assert((a + b).last() == b.last());
    }
}

proof fn lemma_count_type_zero(cs: Seq<ComboV>, t: ComboType)
    requires
        forall|i: int| 0 <= i < cs.len() ==> (#[trigger] cs[i]).combo_type != t,
    ensures
        count_type(cs, t) == 0,
    decreases cs.len(),
{
    if cs.len() > 0 {
        lemma_count_type_zero(cs.drop_last(), t);
    }
}

proof fn lemma_count_type_all(cs: Seq<ComboV>, t: ComboType)
    requires
        forall|i: int| 0 <= i < cs.len() ==> (#[trigger] cs[i]).combo_type == t,
    ensures
        count_type(cs, t) == cs.len(),
    decreases cs.len(),
{
    if cs.len() > 0 {
        lemma_count_type_all(cs.drop_last(), t);
    }
}

proof fn lemma_count_type_pos_exists(cs: Seq<ComboV>, t: ComboType)
    requires
        count_type(cs, t) > 0,
    ensures
        exists|i: int| 0 <= i < cs.len() && (#[trigger] cs[i]).combo_type == t,
    decreases cs.len(),
{
    if cs.len() > 0 {
        if cs.last().combo_type == t {
            assert(cs[cs.len() - 1].combo_type == t);
        } else {
            lemma_count_type_pos_exists(cs.drop_last(), t);
            let i = choose|i: int|
                0 <= i < cs.drop_last().len() && (#[trigger] cs.drop_last()[i]).combo_type == t;
            assert(cs[i].combo_type == t);
        }
    }
}

/// The bomb section holds exactly one bomb per rank held four times.
proof fn lemma_kind_bomb_count(s: Seq<Card>, v: int)
    requires
        0 <= v <= 16,
    ensures
        count_type(kind_section(s, 4, true, -1, ComboType::Bomb, v), ComboType::Bomb)
            == ranks_exactly(s, 4, v),
    decreases v,
{
    if v > 0 {
        lemma_kind_bomb_count(s, v - 1);
        let pre = kind_section(s, 4, true, -1, ComboType::Bomb, v - 1);
        if kind_ok(s, v - 1, 4, true, -1) {
            let c = kind_combo(s, v - 1, 4, ComboType::Bomb);
            lemma_count_type_concat(pre, seq![c], ComboType::Bomb);
            assert(seq![c].drop_last() =~= Seq::<ComboV>::empty());
            assert(count_type(Seq::<ComboV>::empty(), ComboType::Bomb) == 0);
            assert(seq![c].last() == c);
            assert(count_type(seq![c], ComboType::Bomb) == 1);
        } else {
            assert(kind_section(s, 4, true, -1, ComboType::Bomb, v) =~= pre);
            assert((v - 1) as u8 as int == v - 1);
        }
    }
}

/// The first entry of the bomb section is the cheapest four-of-a-kind: the
/// section runs by ascending rank, so its head carries the lowest rank held
/// four times.
proof fn lemma_kind_section_first(s: Seq<Card>, v: int)
    requires
        0 <= v <= 16,
        kind_section(s, 4, true, -1, ComboType::Bomb, v).len() > 0,
    ensures
        exists|w: u8|
            {
                &&& w < v
                &&& #[trigger] cnt_ord(s, w) == 4
                &&& kind_section(s, 4, true, -1, ComboType::Bomb, v)[0] == kind_combo(
                    s,
                    w as int,
                    4,
                    ComboType::Bomb,
                )
                &&& forall|u: u8| u < w ==> #[trigger] cnt_ord(s, u) != 4
            },
    decreases v,
{
    if v > 0 {
        let pre = kind_section(s, 4, true, -1, ComboType::Bomb, v - 1);
        if pre.len() > 0 {
            lemma_kind_section_first(s, v - 1);
            let w = choose|w: u8|
                {
                    &&& w < v - 1
                    &&& #[trigger] cnt_ord(s, w) == 4
                    &&& pre[0] == kind_combo(s, w as int, 4, ComboType::Bomb)
                    &&& forall|u: u8| u < w ==> #[trigger] cnt_ord(s, u) != 4
                };
            assert(kind_section(s, 4, true, -1, ComboType::Bomb, v)[0] == pre[0]);
            assert(w < v && cnt_ord(s, w) == 4 && kind_section(s, 4, true, -1, ComboType::Bomb, v)[0]
                == kind_combo(s, w as int, 4, ComboType::Bomb));
        } else {
            // nothing qualifies below v-1, so the head is the entry at v-1
            lemma_kind_shape(s, 4, true, -1, ComboType::Bomb, v - 1);
            lemma_count_type_all(pre, ComboType::Bomb);
            lemma_kind_bomb_count(s, v - 1);
            crate::eval::lemma_ranks_exactly_witness(s, 4, v - 1);
            assert(kind_ok(s, v - 1, 4, true, -1));
            let w = (v - 1) as u8;
            assert(kind_section(s, 4, true, -1, ComboType::Bomb, v)[0] == kind_combo(
                s,
                v - 1,
                4,
                ComboType::Bomb,
            ));
            assert forall|u: u8| u < w implies #[trigger] cnt_ord(s, u) != 4 by {
                assert(!(u < v - 1 && cnt_ord(s, u) == 4));
            }
            assert(w < v && cnt_ord(s, w) == 4);
        }
    }
}

/// In a reply list for a non-bomb constraint, every combo ahead of the first
/// BOMB has another type, and that first BOMB is the cheapest four-of-a-kind
/// the hand holds.
pub proof fn lemma_generate_cheapest_bomb(s: Seq<Card>, c: ComboV)
    requires
        c.combo_type != ComboType::Bomb,
    ensures
        (exists|v: u8| v < 16 && #[trigger] cnt_ord(s, v) == 4) ==> exists|m: int|
            {
                &&& 0 <= m < spec_generate(s, Some(c)).len()
                &&& (forall|i: int|
                    0 <= i < m ==> (#[trigger] spec_generate(s, Some(c))[i]).combo_type
                        != ComboType::Bomb)
                &&& (#[trigger] spec_generate(s, Some(c))[m]).combo_type == ComboType::Bomb
                &&& cnt_ord(s, spec_generate(s, Some(c))[m].lead_value) == 4
                &&& (forall|u: u8|
                    u < spec_generate(s, Some(c))[m].lead_value ==> #[trigger] cnt_ord(s, u) != 4)
            },
{
    let g = spec_generate(s, Some(c));
    let l = c.lead_value as int;
    let main: Seq<ComboV> = if c.combo_type == ComboType::Single {
        singles_above(s, l)
    } else if c.combo_type == ComboType::Pair {
        kind_section(s, 2, false, l, ComboType::Pair, 16)
    } else if c.combo_type == ComboType::Triple {
        kind_section(s, 3, false, l, ComboType::Triple, 16)
    } else if c.combo_type == ComboType::Straight {
        straights_below(s, 15, c.cards.len() as int, l)
    } else if c.combo_type == ComboType::Plane {
        planes_below(s, 15, c.cards.len() as int / 3, l)
    } else {
        Seq::empty()
    };
    let bombs = kind_section(s, 4, true, -1, ComboType::Bomb, 16);
    assert(g == main + bombs);
    lemma_singles_shape(s, l);
    lemma_kind_shape(s, 2, false, l, ComboType::Pair, 16);
    lemma_kind_shape(s, 3, false, l, ComboType::Triple, 16);
    lemma_straights_below_shape(s, 15, c.cards.len() as int, l);
    lemma_planes_below_shape(s, 15, c.cards.len() as int / 3, l);
    if exists|v: u8| v < 16 && #[trigger] cnt_ord(s, v) == 4 {
        crate::eval::lemma_ranks_exactly_witness(s, 4, 16);
        lemma_kind_shape(s, 4, true, -1, ComboType::Bomb, 16);
        lemma_count_type_all(bombs, ComboType::Bomb);
        lemma_kind_bomb_count(s, 16);
        assert(bombs.len() >= 1);
        lemma_kind_section_first(s, 16);
        let m = main.len() as int;
        assert(g[m] == bombs[0]);
        assert forall|i: int| 0 <= i < m implies (#[trigger] g[i]).combo_type
            != ComboType::Bomb by {
            assert(g[i] == main[i]);
        }
        let w = choose|w: u8|
            {
                &&& w < 16
                &&& #[trigger] cnt_ord(s, w) == 4
                &&& bombs[0] == kind_combo(s, w as int, 4, ComboType::Bomb)
                &&& forall|u: u8| u < w ==> #[trigger] cnt_ord(s, u) != 4
            };
        assert(g[m].lead_value == w);
        assert(0 <= m < g.len());
    }
}

/// Opening-mode bombs: the generation of an unconstrained hand holds exactly
/// one BOMB combo per rank held four times, and every BOMB it holds leads
/// with such a rank.  On a hand with exactly one rank held four times this
/// yields exactly one BOMB.
pub proof fn lemma_generate_bomb_count(s: Seq<Card>)
    ensures
        count_type(spec_generate(s, None), ComboType::Bomb) == ranks_exactly(s, 4, 16),
        forall|i: int|
            0 <= i < spec_generate(s, None).len() && (#[trigger] spec_generate(s, None)[i]).combo_type
                == ComboType::Bomb ==> cnt_ord(s, spec_generate(s, None)[i].lead_value) == 4,
{
    let s1 = singles_above(s, -1);
    let s2 = kind_section(s, 2, false, -1, ComboType::Pair, 16);
    let s3 = kind_section(s, 3, false, -1, ComboType::Triple, 16);
    let s4 = straights_below(s, 15, -1, -1);
    let s5 = planes_below(s, 15, -1, -1);
    let s6 = kind_section(s, 4, true, -1, ComboType::Bomb, 16);
    let g = spec_generate(s, None);
    assert(g == s1 + s2 + s3 + s4 + s5 + s6);
    lemma_singles_shape(s, -1);
    lemma_kind_shape(s, 2, false, -1, ComboType::Pair, 16);
    lemma_kind_shape(s, 3, false, -1, ComboType::Triple, 16);
    lemma_straights_below_shape(s, 15, -1, -1);
    lemma_planes_below_shape(s, 15, -1, -1);
    lemma_kind_shape(s, 4, true, -1, ComboType::Bomb, 16);
    lemma_count_type_zero(s1, ComboType::Bomb);
    lemma_count_type_zero(s2, ComboType::Bomb);
    lemma_count_type_zero(s3, ComboType::Bomb);
    lemma_count_type_zero(s4, ComboType::Bomb);
    lemma_count_type_zero(s5, ComboType::Bomb);
    lemma_kind_bomb_count(s, 16);
    lemma_count_type_concat(s1, s2, ComboType::Bomb);
    lemma_count_type_concat(s1 + s2, s3, ComboType::Bomb);
    lemma_count_type_concat(s1 + s2 + s3, s4, ComboType::Bomb);
    lemma_count_type_concat(s1 + s2 + s3 + s4, s5, ComboType::Bomb);
    lemma_count_type_concat(s1 + s2 + s3 + s4 + s5, s6, ComboType::Bomb);
    assert forall|i: int|
        0 <= i < g.len() && (#[trigger] g[i]).combo_type == ComboType::Bomb implies cnt_ord(
        s,
        g[i].lead_value,
    ) == 4 by {
        lemma_concat6_index(s1, s2, s3, s4, s5, s6, i);
    }
}

/// Responses to a non-bomb constraint: every same-type reply strictly beats
/// the constraint's lead value, and a BOMB reply is present whenever the hand
/// holds any four-of-a-kind, regardless of the constraint's lead.
pub proof fn lemma_generate_response(s: Seq<Card>, c: ComboV)
    requires
        c.combo_type != ComboType::Bomb,
        c.combo_type != ComboType::Pass,
    ensures
        forall|i: int|
            0 <= i < spec_generate(s, Some(c)).len() && (#[trigger] spec_generate(s, Some(c))[i]).combo_type
                == c.combo_type ==> spec_generate(s, Some(c))[i].lead_value > c.lead_value,
        (exists|v: u8| v < 16 && #[trigger] cnt_ord(s, v) == 4) ==> exists|i: int|
            0 <= i < spec_generate(s, Some(c)).len() && (#[trigger] spec_generate(s, Some(c))[i]).combo_type
                == ComboType::Bomb,
{
    let g = spec_generate(s, Some(c));
    let l = c.lead_value as int;
    let main: Seq<ComboV> = if c.combo_type == ComboType::Single {
        singles_above(s, l)
    } else if c.combo_type == ComboType::Pair {
        kind_section(s, 2, false, l, ComboType::Pair, 16)
    } else if c.combo_type == ComboType::Triple {
        kind_section(s, 3, false, l, ComboType::Triple, 16)
    } else if c.combo_type == ComboType::Straight {
        straights_below(s, 15, c.cards.len() as int, l)
    } else {
        planes_below(s, 15, c.cards.len() as int / 3, l)
    };
    let bombs = kind_section(s, 4, true, -1, ComboType::Bomb, 16);
    assert(g == main + bombs);
    lemma_singles_shape(s, l);
    lemma_kind_shape(s, 2, false, l, ComboType::Pair, 16);
    lemma_kind_shape(s, 3, false, l, ComboType::Triple, 16);
    lemma_straights_below_shape(s, 15, c.cards.len() as int, l);
    lemma_planes_below_shape(s, 15, c.cards.len() as int / 3, l);
    lemma_kind_shape(s, 4, true, -1, ComboType::Bomb, 16);
    assert forall|i: int|
        0 <= i < g.len() && (#[trigger] g[i]).combo_type == c.combo_type implies g[i].lead_value
        > c.lead_value by {
        if i < main.len() {
            assert(g[i] == main[i]);
        } else {
            assert(g[i] == bombs[i - main.len()]);
        }
    }
    if exists|v: u8| v < 16 && #[trigger] cnt_ord(s, v) == 4 {
        crate::eval::lemma_ranks_exactly_witness(s, 4, 16);
        lemma_kind_bomb_count(s, 16);
        lemma_count_type_pos_exists(bombs, ComboType::Bomb);
        let j = choose|j: int|
            0 <= j < bombs.len() && (#[trigger] bombs[j]).combo_type == ComboType::Bomb;
        assert(g[main.len() + j] == bombs[j]);
        assert(g[main.len() + j].combo_type == ComboType::Bomb);
    }
}

/// An unconstrained non-empty hand always has a reply: at the least, each of
/// its cards is a single.
pub proof fn lemma_generate_opening_nonempty(s: Seq<Card>)
    ensures
        spec_generate(s, None).len() >= s.len(),
    decreases s.len(),
{
    lemma_singles_len(s);
}

proof fn lemma_singles_len(s: Seq<Card>)
    ensures
        singles_above(s, -1).len() == s.len(),
    decreases s.len(),
{
    if s.len() > 0 {
        lemma_singles_len(s.drop_last());
    }
}

proof fn lemma_concat6_index(
    s1: Seq<ComboV>,
    s2: Seq<ComboV>,
    s3: Seq<ComboV>,
    s4: Seq<ComboV>,
    s5: Seq<ComboV>,
    s6: Seq<ComboV>,
    i: int,
)
    requires
        0 <= i < (s1 + s2 + s3 + s4 + s5 + s6).len(),
    ensures
        (s1 + s2 + s3 + s4 + s5 + s6)[i] == if i < s1.len() {
            s1[i]
        } else if i < s1.len() + s2.len() {
            s2[i - s1.len()]
        } else if i < s1.len() + s2.len() + s3.len() {
            s3[i - s1.len() - s2.len()]
        } else if i < s1.len() + s2.len() + s3.len() + s4.len() {
            s4[i - s1.len() - s2.len() - s3.len()]
        } else if i < s1.len() + s2.len() + s3.len() + s4.len() + s5.len() {
            s5[i - s1.len() - s2.len() - s3.len() - s4.len()]
        } else {
            s6[i - s1.len() - s2.len() - s3.len() - s4.len() - s5.len()]
        },
{
}

} // verus!
