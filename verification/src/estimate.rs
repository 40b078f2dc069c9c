//! The opponent response estimator: a cheap, deliberately incomplete
//! over-approximation of the generator, used only to bound branching inside
//! the heuristic search.
//!
//! Opening: the two lowest singles (ties broken by hand order), the lowest
//! pair, and PASS.  Responding: every generated reply of the constraint's
//! own type whose lead beats it, then PASS, then the single cheapest bomb
//! when the constraint is not itself a bomb; the list is capped at five
//! entries, so PASS itself may be cut.  The result is pinned exactly by
//! `spec_estimate`.

use vstd::prelude::*;
use crate::cards::{Card, card_ord, card_value, cnt_ord};
use crate::combo::{Combo, ComboType, ComboV, combos_view, pass_combo, pass_combo_v};
use crate::plays::{build_groups, filter_ord, find_opponent_valid_plays, kind_combo,
    lemma_filter_ord_len, opt_view, single_v, spec_generate};

verus! {

/// The least index among the first `n` cards holding a card of minimal
/// ordinal (the first such card in hand order).
pub open spec fn first_min_idx(s: Seq<Card>, n: int) -> int
    decreases n,
{
    if n <= 1 {
        0
    } else {
        let p = first_min_idx(s, n - 1);
        if card_ord(s[n - 1]) < card_ord(s[p]) {
            n - 1
        } else {
            p
        }
    }
}

/// The least index among the first `n` cards, skipping `excl`, holding a
/// card of minimal ordinal.
pub open spec fn first_min_except(s: Seq<Card>, n: int, excl: int) -> Option<int>
    decreases n,
{
    if n <= 0 {
        None
    } else {
        let p = first_min_except(s, n - 1, excl);
        if n - 1 == excl {
            p
        } else {
            match p {
                None => Some(n - 1),
                Some(q) => if card_ord(s[n - 1]) < card_ord(s[q]) {
                    Some(n - 1)
                } else {
                    Some(q)
                },
            }
        }
    }
}

/// The lowest ordinal the hand holds at least `k` times, scanning up from
/// `v`.
pub open spec fn lowest_with(s: Seq<Card>, k: nat, v: int) -> Option<u8>
    decreases 16 - v,
{
    if v >= 16 || v < 0 {
        None
    } else if cnt_ord(s, v as u8) >= k {
        Some(v as u8)
    } else {
        lowest_with(s, k, v + 1)
    }
}

/// The one or two lowest singles of the hand, lowest first.
pub open spec fn opening_singles(s: Seq<Card>) -> Seq<ComboV> {
    if s.len() == 0 {
        Seq::empty()
    } else if s.len() == 1 {
        seq![single_v(s[0])]
    } else {
        let i1 = first_min_idx(s, s.len() as int);
        match first_min_except(s, s.len() as int, i1) {
            Some(i2) => seq![single_v(s[i1]), single_v(s[i2])],
            None => seq![single_v(s[i1])],
        }
    }
}

/// The generated replies of type `t` whose lead beats `l`, in generation
/// order: the "type match + greater lead value" check of the estimator.
pub open spec fn filter_beats(g: Seq<ComboV>, t: ComboType, l: u8, n: int) -> Seq<ComboV>
    decreases n,
{
    if n <= 0 {
        Seq::empty()
    } else {
        filter_beats(g, t, l, n - 1) + if g[n - 1].combo_type == t && g[n - 1].lead_value > l {
            seq![g[n - 1]]
        } else {
            Seq::empty()
        }
    }
}

/// The first bomb among the first `n` generated replies.
pub open spec fn first_bomb(g: Seq<ComboV>, n: int) -> Option<ComboV>
    decreases n,
{
    if n <= 0 {
        None
    } else {
        match first_bomb(g, n - 1) {
            Some(c) => Some(c),
            None => if g[n - 1].combo_type == ComboType::Bomb {
                Some(g[n - 1])
            } else {
                None
            },
        }
    }
}

/// The first five entries of a reply list.
pub open spec fn take5(cs: Seq<ComboV>) -> Seq<ComboV> {
    if cs.len() <= 5 {
        cs
    } else {
        cs.take(5)
    }
}

/// The estimator's exact result.  Opening: up to two lowest singles, the
/// lowest pair, PASS.  Responding: the same-type beating replies, PASS, the
/// single cheapest bomb unless the constraint is a bomb, capped at five.
pub open spec fn spec_estimate(s: Seq<Card>, cons: Option<ComboV>) -> Seq<ComboV> {
    match cons {
        None => opening_singles(s) + (match lowest_with(s, 2, 0) {
            Some(v) => seq![kind_combo(s, v as int, 2, ComboType::Pair)],
            None => Seq::empty(),
        }) + seq![pass_combo_v()],
        Some(c) => {
            let g = spec_generate(s, Some(c));
            let bomb_part: Seq<ComboV> = if c.combo_type != ComboType::Bomb {
                match first_bomb(g, g.len() as int) {
                    Some(b) => seq![b],
                    None => Seq::empty(),
                }
            } else {
                Seq::empty()
            };
            take5(
                filter_beats(g, c.combo_type, c.lead_value, g.len() as int) + seq![pass_combo_v()]
                    + bomb_part,
            )
        },
    }
}

/// The estimator never returns an empty list: PASS is always a candidate,
/// though the five-entry cap may push it out of a crowded reply list.
pub proof fn lemma_estimate_nonempty(s: Seq<Card>, cons: Option<ComboV>)
    ensures
        spec_estimate(s, cons).len() >= 1,
        spec_estimate(s, cons).len() <= 5 || cons is None,
{
}

/// Every reply the filter keeps comes from the generated list, carries the
/// demanded type, and beats the lead.
proof fn lemma_filter_beats_shape(g: Seq<ComboV>, t: ComboType, l: u8, n: int)
    requires
        n <= g.len(),
    ensures
        forall|j: int|
            0 <= j < filter_beats(g, t, l, n).len() ==> exists|i: int|
                0 <= i < g.len() && g[i] == #[trigger] filter_beats(g, t, l, n)[j],
        forall|j: int|
            0 <= j < filter_beats(g, t, l, n).len() ==> (#[trigger] filter_beats(g, t, l, n)[j]).combo_type
                == t && filter_beats(g, t, l, n)[j].lead_value > l,
    decreases n,
{
    if n > 0 {
        lemma_filter_beats_shape(g, t, l, n - 1);
        let pre = filter_beats(g, t, l, n - 1);
        if g[n - 1].combo_type == t && g[n - 1].lead_value > l {
            assert forall|j: int| 0 <= j < filter_beats(g, t, l, n).len() implies exists|i: int|
                0 <= i < g.len() && g[i] == #[trigger] filter_beats(g, t, l, n)[j] by {
                if j < pre.len() {
                    assert(filter_beats(g, t, l, n)[j] == pre[j]);
                } else {
                    assert(filter_beats(g, t, l, n)[j] == g[n - 1]);
                }
            }
            assert forall|j: int| 0 <= j < filter_beats(g, t, l, n).len() implies (
            #[trigger] filter_beats(g, t, l, n)[j]).combo_type == t && filter_beats(
                g,
                t,
                l,
                n,
            )[j].lead_value > l by {
                if j < pre.len() {
                    assert(filter_beats(g, t, l, n)[j] == pre[j]);
                } else {
                    assert(filter_beats(g, t, l, n)[j] == g[n - 1]);
                }
            }
        } else {
            assert(filter_beats(g, t, l, n) =~= pre);
        }
    }
}

/// A found first bomb comes from the generated list.
proof fn lemma_first_bomb_member(g: Seq<ComboV>, n: int)
    requires
        n <= g.len(),
        first_bomb(g, n) is Some,
    ensures
        exists|i: int| 0 <= i < g.len() && g[i] == first_bomb(g, n)->0,
    decreases n,
{
    if n > 0 {
        if first_bomb(g, n - 1) is Some {
            lemma_first_bomb_member(g, n - 1);
        } else {
            assert(g[n - 1] == first_bomb(g, n)->0);
        }
    }
}

/// Every estimated response to a constraint is PASS or a generated reply.
pub proof fn lemma_estimate_from_generator(s: Seq<Card>, c: ComboV)
    ensures
        forall|j: int|
            0 <= j < spec_estimate(s, Some(c)).len() ==> (#[trigger] spec_estimate(s, Some(c))[j]
                == pass_combo_v() || exists|i: int|
                0 <= i < spec_generate(s, Some(c)).len() && spec_generate(s, Some(c))[i]
                    == spec_estimate(s, Some(c))[j]),
{
    let g = spec_generate(s, Some(c));
    let fb = filter_beats(g, c.combo_type, c.lead_value, g.len() as int);
    let bomb_part: Seq<ComboV> = if c.combo_type != ComboType::Bomb {
        match first_bomb(g, g.len() as int) {
            Some(b) => seq![b],
            None => Seq::empty(),
        }
    } else {
        Seq::empty()
    };
    let full = fb + seq![pass_combo_v()] + bomb_part;
    lemma_filter_beats_shape(g, c.combo_type, c.lead_value, g.len() as int);
    if first_bomb(g, g.len() as int) is Some {
        lemma_first_bomb_member(g, g.len() as int);
    }
    assert forall|j: int| 0 <= j < spec_estimate(s, Some(c)).len() implies (#[trigger] spec_estimate(
        s,
        Some(c),
    )[j] == pass_combo_v() || exists|i: int|
        0 <= i < g.len() && g[i] == spec_estimate(s, Some(c))[j]) by {
        assert(spec_estimate(s, Some(c))[j] == full[j]);
        if j < fb.len() {
            assert(full[j] == fb[j]);
        } else if j == fb.len() {
            assert(full[j] == pass_combo_v());
        } else {
            assert(full[j] == bomb_part[j - fb.len() - 1]);
            assert(bomb_part[0] == first_bomb(g, g.len() as int)->0);
        }
    }
}

/// No bomb appears before position `m` of the reply list, so the scan for
/// the first bomb lands exactly on `m`.
proof fn lemma_first_bomb_at(g: Seq<ComboV>, m: int)
    requires
        0 <= m < g.len(),
        forall|i: int| 0 <= i < m ==> (#[trigger] g[i]).combo_type != ComboType::Bomb,
        g[m].combo_type == ComboType::Bomb,
    ensures
        first_bomb(g, g.len() as int) == Some(g[m]),
{
    lemma_first_bomb_none_upto(g, m);
    assert(first_bomb(g, m + 1) == Some(g[m]));
    lemma_first_bomb_stable(g, m + 1, g.len() as int);
}

proof fn lemma_first_bomb_none_upto(g: Seq<ComboV>, m: int)
    requires
        0 <= m <= g.len(),
        forall|i: int| 0 <= i < m ==> (#[trigger] g[i]).combo_type != ComboType::Bomb,
    ensures
        first_bomb(g, m) is None,
    decreases m,
{
    if m > 0 {
        lemma_first_bomb_none_upto(g, m - 1);
    }
}

/// Answering a non-bomb constraint the estimator offers at most one BOMB;
/// and whenever the hand holds any four-of-a-kind and the same-type beaters
/// leave room under the five-entry cap, it offers exactly one: the cheapest,
/// leading with the lowest rank held four times.
pub proof fn lemma_estimate_single_cheapest_bomb(s: Seq<Card>, c: ComboV)
    requires
        c.combo_type != ComboType::Bomb,
    ensures
        forall|i: int, j: int|
            0 <= i < j < spec_estimate(s, Some(c)).len() ==> !((#[trigger] spec_estimate(
                s,
                Some(c),
            )[i]).combo_type == ComboType::Bomb && (#[trigger] spec_estimate(s, Some(c))[j]).combo_type
                == ComboType::Bomb),
        ((exists|v: u8| v < 16 && #[trigger] cnt_ord(s, v) == 4) && filter_beats(
            spec_generate(s, Some(c)),
            c.combo_type,
            c.lead_value,
            spec_generate(s, Some(c)).len() as int,
        ).len() <= 3) ==> exists|j: int|
            {
                &&& 0 <= j < spec_estimate(s, Some(c)).len()
                &&& (#[trigger] spec_estimate(s, Some(c))[j]).combo_type == ComboType::Bomb
                &&& cnt_ord(s, spec_estimate(s, Some(c))[j].lead_value) == 4
                &&& forall|u: u8|
                    u < spec_estimate(s, Some(c))[j].lead_value ==> #[trigger] cnt_ord(s, u) != 4
            },
{
    let g = spec_generate(s, Some(c));
    let fb = filter_beats(g, c.combo_type, c.lead_value, g.len() as int);
    let bomb_part: Seq<ComboV> = match first_bomb(g, g.len() as int) {
        Some(b) => seq![b],
        None => Seq::empty(),
    };
    let full = fb + seq![pass_combo_v()] + bomb_part;
    let est = spec_estimate(s, Some(c));
    lemma_filter_beats_shape(g, c.combo_type, c.lead_value, g.len() as int);
    assert(est == take5(full));
    assert forall|i: int, j: int| 0 <= i < j < est.len() implies !((#[trigger] est[i]).combo_type
        == ComboType::Bomb && (#[trigger] est[j]).combo_type == ComboType::Bomb) by {
        assert(est[i] == full[i]);
        assert(est[j] == full[j]);
        if full[i].combo_type == ComboType::Bomb && full[j].combo_type == ComboType::Bomb {
            // a bomb can sit only in the one-entry bomb slot after PASS
            assert(i > fb.len());
            assert(j > fb.len());
            assert(i == fb.len() + 1 && j == fb.len() + 1);
        }
    }
    if (exists|v: u8| v < 16 && #[trigger] cnt_ord(s, v) == 4) && fb.len() <= 3 {
        crate::plays::lemma_generate_cheapest_bomb(s, c);
        let m = choose|m: int|
            {
                &&& 0 <= m < spec_generate(s, Some(c)).len()
                &&& (forall|i: int|
                    0 <= i < m ==> (#[trigger] spec_generate(s, Some(c))[i]).combo_type
                        != ComboType::Bomb)
                &&& (#[trigger] spec_generate(s, Some(c))[m]).combo_type == ComboType::Bomb
                &&& cnt_ord(s, spec_generate(s, Some(c))[m].lead_value) == 4
                &&& (forall|u: u8|
                    u < spec_generate(s, Some(c))[m].lead_value ==> #[trigger] cnt_ord(s, u) != 4)
            };
        lemma_first_bomb_at(g, m);
        assert(bomb_part == seq![g[m]]);
        let j = fb.len() as int + 1;
        assert(full.len() == fb.len() + 2);
        assert(full.len() <= 5);
        assert(est == full);
        assert(est[j] == g[m]);
        assert(0 <= j < est.len() && est[j].combo_type == ComboType::Bomb && cnt_ord(
            s,
            est[j].lead_value,
        ) == 4);
    }
}

/// Estimated responses to a non-bomb constraint of the constraint's own type
/// strictly beat its lead value; PASS aside, nothing weaker is suggested.
pub proof fn lemma_estimate_response_beats(s: Seq<Card>, c: ComboV)
    requires
        c.combo_type != ComboType::Bomb,
        c.combo_type != ComboType::Pass,
    ensures
        forall|j: int|
            0 <= j < spec_estimate(s, Some(c)).len() && (#[trigger] spec_estimate(s, Some(c))[j]).combo_type
                == c.combo_type ==> spec_estimate(s, Some(c))[j].lead_value > c.lead_value,
{
    lemma_estimate_from_generator(s, c);
    crate::plays::lemma_generate_response(s, c);
    assert forall|j: int|
        0 <= j < spec_estimate(s, Some(c)).len() && (#[trigger] spec_estimate(s, Some(c))[j]).combo_type
            == c.combo_type implies spec_estimate(s, Some(c))[j].lead_value > c.lead_value by {
        let e = spec_estimate(s, Some(c))[j];
        assert(e != pass_combo_v());
        let i = choose|i: int|
            0 <= i < spec_generate(s, Some(c)).len() && spec_generate(s, Some(c))[i] == e;
        assert(spec_generate(s, Some(c))[i].combo_type == c.combo_type);
    }
}

/// Estimates likely opponent responses: the exact list `spec_estimate`.
pub fn estimate_opponent_responses(player_hand: &Vec<Card>, last_combo: Option<&Combo>) -> (res:
    Vec<Combo>)
    ensures
        combos_view(res@) == spec_estimate(player_hand@, opt_view(last_combo)),
{
    let ghost s = player_hand@;
    let mut res: Vec<Combo> = Vec::new();
    proof {
        assert(combos_view(res@) =~= Seq::<ComboV>::empty());
    }
    match last_combo {
        None => {
            let n = player_hand.len();
            if n >= 1 {
                // the lowest single, by first occurrence in hand order
                let mut p: usize = 0;
                let mut i: usize = 1;
                while i < n
                    invariant
                        player_hand@ == s,
                        n == s.len(),
                        1 <= i <= n,
                        p < i,
                        p == first_min_idx(s, i as int),
                    decreases n - i,
                {
                    let vi = card_value(player_hand[i].rank.as_str());
                    let vp = card_value(player_hand[p].rank.as_str());
                    if vi < vp {
                        p = i;
                    }
                    i = i + 1;
                }
                let mut cards1: Vec<Card> = Vec::new();
                cards1.push(player_hand[p].clone());
                let lead1 = card_value(player_hand[p].rank.as_str());
                let c1 = Combo { cards: cards1, combo_type: ComboType::Single, lead_value: lead1 };
                proof {
                    assert(c1@.cards =~= single_v(s[p as int]).cards);
                    assert(c1@ == single_v(s[p as int]));
                }
                res.push(c1);
                if n >= 2 {
                    // the second-lowest single, skipping the first
                    let mut q: usize = 0;
                    let mut found = false;
                    let mut j: usize = 0;
                    while j < n
                        invariant
                            player_hand@ == s,
                            n == s.len(),
                            j <= n,
                            p < n,
                            found ==> q < j && Some(q as int) == first_min_except(
                                s,
                                j as int,
                                p as int,
                            ),
                            !found ==> first_min_except(s, j as int, p as int) is None,
                        decreases n - j,
                    {
                        if j != p {
                            if !found {
                                q = j;
                                found = true;
                            } else {
                                let vj = card_value(player_hand[j].rank.as_str());
                                let vq = card_value(player_hand[q].rank.as_str());
                                if vj < vq {
                                    q = j;
                                }
                            }
                        }
                        j = j + 1;
                    }
                    if found {
                        let mut cards2: Vec<Card> = Vec::new();
                        cards2.push(player_hand[q].clone());
                        let lead2 = card_value(player_hand[q].rank.as_str());
                        let c2 = Combo {
                            cards: cards2,
                            combo_type: ComboType::Single,
                            lead_value: lead2,
                        };
                        proof {
                            assert(c2@.cards =~= single_v(s[q as int]).cards);
                            assert(c2@ == single_v(s[q as int]));
                        }
                        res.push(c2);
                    }
                }
            }
            proof {
                assert(combos_view(res@) =~= opening_singles(s));
            }
            // the lowest pair
            let groups = build_groups(player_hand);
            let mut v: usize = 0;
            let mut pair_done = false;
            while v < 16
                invariant
                    groups@.len() == 16,
                    forall|w: int| 0 <= w < 16 ==> (#[trigger] groups@[w])@ == filter_ord(s, w as u8),
                    v <= 16,
                    !pair_done ==> lowest_with(s, 2, 0) == lowest_with(s, 2, v as int),
                    !pair_done ==> combos_view(res@) == opening_singles(s),
                    pair_done ==> combos_view(res@) =~= opening_singles(s) + (match lowest_with(
                        s,
                        2,
                        0,
                    ) {
                        Some(w) => seq![kind_combo(s, w as int, 2, ComboType::Pair)],
                        None => Seq::<ComboV>::empty(),
                    }),
                decreases 16 - v,
            {
                if !pair_done {
                    proof {
                        lemma_filter_ord_len(s, v as u8);
                    }
                    if groups[v].len() >= 2 {
                        let mut cards: Vec<Card> = Vec::new();
                        cards.push(groups[v][0].clone());
                        cards.push(groups[v][1].clone());
                        let c = Combo { cards, combo_type: ComboType::Pair, lead_value: v as u8 };
                        proof {
                            assert(c@.cards =~= filter_ord(s, v as u8).take(2));
                            assert(c@ == kind_combo(s, v as int, 2, ComboType::Pair));
                            assert(lowest_with(s, 2, v as int) == Some(v as u8));
                        }
                        res.push(c);
                        pair_done = true;
                    }
                }
                v = v + 1;
            }
            if !pair_done {
                proof {
                    assert(lowest_with(s, 2, 16) is None);
                }
            }
            let pass = pass_combo();
            let ghost pre = res@;
            res.push(pass);
            proof {
                crate::plays::lemma_combos_view_push(pre, pass);
                assert(combos_view(res@) =~= spec_estimate(s, opt_view(last_combo)));
            }
        },
        Some(lc) => {
            let valid = find_opponent_valid_plays(player_hand, last_combo);
            let ghost g = combos_view(valid@);
            let lead = lc.lead_value;
            let ctype = lc.combo_type;
            let n = valid.len();
            let mut i: usize = 0;
            while i < n
                invariant
                    n == valid@.len(),
                    g == combos_view(valid@),
                    i <= n,
                    ctype == lc@.combo_type,
                    lead == lc@.lead_value,
                    combos_view(res@) == filter_beats(g, ctype, lead, i as int),
                decreases n - i,
            {
                proof {
                    assert(g[i as int] == valid@[i as int]@);
                }
                if valid[i].combo_type == ctype && valid[i].lead_value > lead {
                    let c = valid[i].clone();
                    let ghost pre = res@;
                    res.push(c);
                    proof {
                        crate::plays::lemma_combos_view_push(pre, c);
                        assert(combos_view(res@) =~= filter_beats(g, ctype, lead, i as int + 1));
                    }
                } else {
                    proof {
                        assert(combos_view(res@) =~= filter_beats(g, ctype, lead, i as int + 1));
                    }
                }
                i = i + 1;
            }
            let pass = pass_combo();
            let ghost pre = res@;
            res.push(pass);
            proof {
                crate::plays::lemma_combos_view_push(pre, pass);
            }
            let ghost after_pass = combos_view(res@);
            if !matches!(lc.combo_type, ComboType::Bomb) {
                let mut j: usize = 0;
                let mut bomb_done = false;
                while j < n
                    invariant
                        n == valid@.len(),
                        g == combos_view(valid@),
                        j <= n,
                        !bomb_done ==> first_bomb(g, j as int) is None,
                        !bomb_done ==> combos_view(res@) == after_pass,
                        bomb_done ==> combos_view(res@) =~= after_pass + (match first_bomb(
                            g,
                            g.len() as int,
                        ) {
                            Some(b) => seq![b],
                            None => Seq::<ComboV>::empty(),
                        }),
                        bomb_done ==> first_bomb(g, g.len() as int) is Some,
                    decreases n - j,
                {
                    if !bomb_done {
                        proof {
                            assert(g[j as int] == valid@[j as int]@);
                        }
                        if matches!(valid[j].combo_type, ComboType::Bomb) {
                            let b = valid[j].clone();
                            let ghost pre2 = res@;
                            res.push(b);
                            proof {
                                crate::plays::lemma_combos_view_push(pre2, b);
                                assert(first_bomb(g, j as int + 1) == Some(g[j as int]));
                                lemma_first_bomb_stable(g, j as int + 1, g.len() as int);
                                assert(combos_view(res@) =~= after_pass + seq![g[j as int]]);
                            }
                            bomb_done = true;
                        }
                    }
                    j = j + 1;
                }
            }
            proof {
                assert(opt_view(last_combo) == Some(lc@));
            }
            // cap at five entries
            let ghost full = combos_view(res@);
            proof {
                assert(full.take(full.len() as int) =~= full);
            }
            while res.len() > 5
                invariant
                    combos_view(res@) == full.take(res@.len() as int),
                    res@.len() <= full.len(),
                    res@.len() >= 5 || res@.len() == full.len(),
                decreases res@.len(),
        {
            let ghost pre3 = res@;
            res.pop();
            proof {
                let k = pre3.len() as int;
                assert(res@ =~= pre3.take(k - 1));
                assert(combos_view(pre3.take(k - 1)) =~= combos_view(pre3).take(k - 1));
                assert(full.take(k).take(k - 1) =~= full.take(k - 1));
            }
            }
            proof {
                if full.len() <= 5 {
                    assert(res@.len() == full.len());
                    assert(combos_view(res@) =~= full);
                } else {
                    assert(res@.len() == 5);
                }
                assert(combos_view(res@) =~= take5(full));
                assert(combos_view(res@) =~= spec_estimate(s, opt_view(last_combo)));
            }
        },
    }
    res
}

/// Once found, the first bomb does not change as the scan continues.
proof fn lemma_first_bomb_stable(g: Seq<ComboV>, j: int, n: int)
    requires
        0 <= j <= n,
        first_bomb(g, j) is Some,
    ensures
        first_bomb(g, n) == first_bomb(g, j),
    decreases n - j,
{
    if j < n {
        lemma_first_bomb_stable(g, j + 1, n);
    }
}

} // verus!
