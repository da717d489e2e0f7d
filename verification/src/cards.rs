//! Rank buckets, incremental hand totals, hole-card constraint codes, and
//! the bound on how many cards a dealer hand can still draw.
//!
//! Ranks are bucket indices: 0 = Ace, 1..=8 = ranks 2..=9, 9 = the
//! ten-bucket (10, J, Q, K). A hand value is a pair `(total, soft)`:
//! every ace counts 11 while the total stays at or below 21, and `soft`
//! holds exactly when one ace is still counted as 11.

use vstd::prelude::*;

verus! {

/// Hole-constraint code: no knowledge about the dealer's hole card.
pub const HOLE_ANY: i32 = 0;

/// Hole-constraint code: a failed peek showed the hole card is not a ten.
pub const HOLE_NOT_TEN: i32 = 1;

/// Hole-constraint code: a failed peek showed the hole card is not an ace.
pub const HOLE_NOT_ACE: i32 = 2;

/// Base value of a rank bucket: ace 11, then face values, ten-bucket 10.
pub open spec fn rank_value(r: int) -> int {
    if r == 0 {
        11
    } else if r <= 8 {
        r + 1
    } else {
        10
    }
}

/// Value of a rank bucket when every ace is counted low.
pub open spec fn rank_low_value(r: int) -> int {
    if r == 0 {
        1
    } else {
        rank_value(r)
    }
}

pub fn rank_val(r: usize) -> (v: u32)
    requires
        r < 10,
    ensures
        v as int == rank_value(r as int),
{
    if r == 0 {
        11
    } else if r <= 8 {
        (r as u32) + 1
    } else {
        10
    }
}

/// Adds one card of rank `r` to the hand value `(t, s)`, demoting an ace
/// from 11 to 1 whenever the total would otherwise pass 21.
pub open spec fn add_card(t: int, s: bool, r: int) -> (int, bool) {
    if r == 0 {
        if s {
            if t + 1 <= 21 {
                (t + 1, true)
            } else {
                (t - 9, false)
            }
        } else if t + 11 <= 21 {
            (t + 11, true)
        } else {
            (t + 1, false)
        }
    } else {
        let v = rank_value(r);
        if s && t + v > 21 {
            (t + v - 10, false)
        } else {
            (t + v, s)
        }
    }
}

pub fn add_to(t: u32, s: bool, r: usize) -> (res: (u32, bool))
    requires
        r < 10,
        t <= 100000,
        s ==> 11 <= t <= 21,
    ensures
        res.0 as int == add_card(t as int, s, r as int).0,
        res.1 == add_card(t as int, s, r as int).1,
{
    if r == 0 {
        if s {
            if t + 1 <= 21 {
                (t + 1, true)
            } else {
                (t - 9, false)
            }
        } else if t + 11 <= 21 {
            (t + 11, true)
        } else {
            (t + 1, false)
        }
    } else {
        let v = rank_val(r);
        if s && t + v > 21 {
            (t + v - 10, false)
        } else {
            (t + v, s)
        }
    }
}

/// Sum of the first `k` cards with every ace counted low.
pub open spec fn low_sum(cards: Seq<u8>, k: int) -> int
    decreases k,
{
    if k <= 0 {
        0
    } else {
        low_sum(cards, k - 1) + rank_low_value(cards[k - 1] as int)
    }
}

/// Whether any of the first `k` cards is an ace.
pub open spec fn has_ace(cards: Seq<u8>, k: int) -> bool
    decreases k,
{
    if k <= 0 {
        false
    } else {
        has_ace(cards, k - 1) || cards[k - 1] == 0
    }
}

/// Total of a hand: the all-low sum, plus 10 when one ace can count high.
pub open spec fn hand_total(cards: Seq<u8>) -> int {
    let low = low_sum(cards, cards.len() as int);
    if has_ace(cards, cards.len() as int) && low + 10 <= 21 {
        low + 10
    } else {
        low
    }
}

/// Whether a hand is soft: some ace still counts as 11 without busting.
pub open spec fn hand_soft(cards: Seq<u8>) -> bool {
    let low = low_sum(cards, cards.len() as int);
    has_ace(cards, cards.len() as int) && low + 10 <= 21
}

/// Evaluates a card multiset to `(total, soft)` by the demotion rule:
/// each ace counts 11, and while the total exceeds 21 an ace still at 11
/// is demoted to 1; `soft` holds iff one ace remains at 11.
pub fn hand_value(cards: &Vec<u8>) -> (res: (u32, bool))
    requires
        forall|i: int| 0 <= i < cards@.len() ==> cards@[i] < 10,
        cards@.len() <= 1000,
    ensures
        res.0 as int == hand_total(cards@),
        res.1 == hand_soft(cards@),
        res.1 ==> res.0 <= 21,
        res.0 > 21 ==> !res.1,
{
    let mut t: u32 = 0;
    let mut s: bool = false;
    let mut i: usize = 0;
    while i < cards.len()
        invariant
            0 <= i <= cards@.len(),
            cards@.len() <= 1000,
            forall|j: int| 0 <= j < cards@.len() ==> cards@[j] < 10,
            low_sum(cards@, i as int) <= 10 * i,
            has_ace(cards@, i as int) ==> low_sum(cards@, i as int) >= 1,
            t as int == (if s {
                low_sum(cards@, i as int) + 10
            } else {
                low_sum(cards@, i as int)
            }),
            s == (has_ace(cards@, i as int) && low_sum(cards@, i as int) + 10 <= 21),
        decreases cards@.len() - i,
    {
        let r = cards[i] as usize;
        let stepped = add_to(t, s, r);
        proof {
            lemma_fold_matches_closed_form(cards@, i as int, t as int, s);
        }
        t = stepped.0;
        s = stepped.1;
        i = i + 1;
    }
    (t, s)
}

/// One fold step of `add_card` keeps the running `(total, soft)` equal to
/// the closed form over the prefix consumed so far.
proof fn lemma_fold_matches_closed_form(cards: Seq<u8>, i: int, t: int, s: bool)
    requires
        0 <= i < cards.len(),
        forall|j: int| 0 <= j < cards.len() ==> cards[j] < 10,
        t == (if s {
            low_sum(cards, i) + 10
        } else {
            low_sum(cards, i)
        }),
        s == (has_ace(cards, i) && low_sum(cards, i) + 10 <= 21),
    ensures
        ({
            let r = cards[i] as int;
            let low2 = low_sum(cards, i + 1);
            let ace2 = has_ace(cards, i + 1);
            let s2 = ace2 && low2 + 10 <= 21;
            add_card(t, s, r) == (if s2 {
                (low2 + 10, true)
            } else {
                (low2, false)
            })
        }),
{
    let r = cards[i] as int;
    assert(low_sum(cards, i + 1) == low_sum(cards, i) + rank_low_value(r));
    assert(has_ace(cards, i + 1) == (has_ace(cards, i) || r == 0));
    assert(low_sum(cards, i) >= 0) by {
        lemma_low_sum_nonneg(cards, i);
    }
}

proof fn lemma_low_sum_nonneg(cards: Seq<u8>, k: int)
    ensures
        low_sum(cards, k) >= 0,
    decreases k,
{
    if k > 0 {
        lemma_low_sum_nonneg(cards, k - 1);
    }
}

/// Every card is worth at least one point even counted low.
pub proof fn lemma_low_sum_ge_len(cards: Seq<u8>, k: int)
    requires
        0 <= k,
    ensures
        low_sum(cards, k) >= k,
    decreases k,
{
    if k > 0 {
        lemma_low_sum_ge_len(cards, k - 1);
    }
}

/// Second component of a hand-value pair (a separate call helps the
/// borrow checker when threading results through further calls).
pub fn value_soft(p: (u32, bool)) -> (b: bool)
    ensures
        b == p.1,
{
    p.1
}

/// Whether the rank `idx` is admissible as the dealer's hole card under
/// the constraint code `hc`.
pub open spec fn hole_ok(hc: int, idx: int) -> bool {
    if hc == HOLE_NOT_TEN {
        idx != 9
    } else if hc == HOLE_NOT_ACE {
        idx != 0
    } else {
        true
    }
}

pub fn hole_allowed(hc: i32, idx: usize) -> (b: bool)
    ensures
        b == hole_ok(hc as int, idx as int),
{
    if hc == HOLE_NOT_TEN {
        idx != 9
    } else if hc == HOLE_NOT_ACE {
        idx != 0
    } else {
        true
    }
}

/// Hand value of the dealer's up-card and hole card together.
pub open spec fn two_card(up: int, hole: int) -> (int, bool) {
    let first = add_card(0, false, up);
    add_card(first.0, first.1, hole)
}

/// Whether the dealer stands on `(t, s)`: above 17 always, on 17 unless
/// the total is soft and the rules make the dealer hit soft 17.
pub open spec fn dealer_stands(t: int, s: bool, h17: bool) -> bool {
    t > 17 || (t == 17 && !(s && h17))
}

/// Upper bound on how many more cards a dealer hand with hard total `t`
/// can draw before standing or busting.
pub open spec fn chain_bound_hard(t: int) -> int {
    if t >= 17 {
        0
    } else if t >= 13 {
        17 - t
    } else {
        let stepped = 5 + (13 - t) / 2;
        let aced = 13 - t;
        if stepped >= aced {
            stepped
        } else {
            aced
        }
    }
}

/// Upper bound on how many more cards a dealer hand `(t, s)` can draw
/// before standing or busting, under either soft-17 rule.
pub open spec fn chain_bound(t: int, s: bool) -> int {
    if t > 21 {
        0
    } else if s {
        if t >= 18 {
            0
        } else {
            23 - t
        }
    } else {
        chain_bound_hard(t)
    }
}

pub fn chain_bound_of(t: u32, s: bool) -> (b: u32)
    requires
        s ==> 11 <= t <= 21,
    ensures
        b as int == chain_bound(t as int, s),
        b <= 13,
{
    proof {
        lemma_chain_bound_range(t as int, s);
    }
    if t > 21 {
        0
    } else if s {
        if t >= 18 {
            0
        } else {
            23 - t
        }
    } else if t >= 17 {
        0
    } else if t >= 13 {
        17 - t
    } else {
        let stepped = 5 + (13 - t) / 2;
        let aced = 13 - t;
        if stepped >= aced {
            stepped
        } else {
            aced
        }
    }
}

pub proof fn lemma_chain_bound_range(t: int, s: bool)
    requires
        t >= 0,
        s ==> 11 <= t <= 21,
    ensures
        0 <= chain_bound(t, s) <= 13,
{
}

/// Drawing any card strictly lowers the chain bound, and keeps the hand
/// value well formed; this is what makes the dealer enumeration terminate
/// within a fixed number of draws.
/// Any up-card plus hole-card pair forms a well-formed dealer hand value
/// whose remaining draw chain is at most 11 cards.
pub proof fn lemma_two_card_props(up: int, hole: int)
    requires
        0 <= up < 10,
        0 <= hole < 10,
    ensures
        ({
            let (t2, s2) = two_card(up, hole);
            &&& 4 <= t2 <= 21
            &&& (s2 ==> 11 <= t2)
            &&& chain_bound(t2, s2) <= 11
        }),
{
}

pub proof fn lemma_chain_bound_step(t: int, s: bool, r: int)
    requires
        0 <= t <= 21,
        s ==> 11 <= t,
        0 <= r < 10,
        !dealer_stands(t, s, true) || !dealer_stands(t, s, false),
    ensures
        ({
            let (t2, s2) = add_card(t, s, r);
            &&& chain_bound(t2, s2) <= chain_bound(t, s) - 1
            &&& (s2 ==> 11 <= t2 <= 21)
            &&& 0 <= t2 <= 32
            &&& chain_bound(t, s) >= 1
        }),
{
}

} // verus!
