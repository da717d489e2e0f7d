//! Player decision solver: exact per-stake expected values for standing,
//! hitting once then standing, doubling, and splitting, over a frozen
//! deck snapshot.
//!
//! Every expected value is an exact rational `num / den` with a positive
//! denominator; nothing is rounded. The doubling value follows the
//! per-stake convention: it equals the one-card hit-then-stand value per
//! unit staked, so callers compare it directly against the other
//! per-stake values (the stake itself is doubled at settlement).

use vstd::prelude::*;
use vstd::arithmetic::mul::{
    lemma_mul_inequality,
    lemma_mul_is_commutative,
    lemma_mul_upper_bound,
};
use vstd::arithmetic::power::pow;
use crate::cards::{add_card, add_to, hole_ok, lemma_two_card_props, two_card};
use crate::dealer::{
    cond_den,
    cond_dist,
    distribution_given_upcard,
    lemma_cond_total,
    lemma_scale_le_pow,
    scale_den,
    scale_den_exec,
    sum6,
};
use crate::deck::{
    allowed_sum,
    dsum,
    lemma_allowed_le_dsum,
    lemma_allowed_sum_nonneg,
    lemma_allowed_update,
    lemma_count_le_dsum,
    lemma_dsum_nonneg,
    lemma_dsum_update,
};

verus! {

/// An exact expected value per unit stake: `num / den`, `den >= 1`.
#[derive(Clone, Copy, PartialEq, Eq, Structural)]
pub struct EvRatio {
    pub num: i128,
    pub den: u128,
}

/// Outcome of one settled comparison: +1 when the fixed player total
/// beats the dealer bucket, -1 when it loses (a busted player always
/// loses), 0 on a push.
pub open spec fn settle(pt: int, bin: int) -> int {
    if pt > 21 {
        -1
    } else if bin == 5 {
        1
    } else {
        let d = 17 + bin;
        if pt > d {
            1
        } else if pt < d {
            -1
        } else {
            0
        }
    }
}

pub fn settle_vs_player(pt: u32, bin: usize) -> (v: i32)
    requires
        bin < 6,
    ensures
        v as int == settle(pt as int, bin as int),
        -1 <= v <= 1,
{
    if pt > 21 {
        return -1;
    }
    if bin == 5 {
        return 1;
    }
    let d = 17 + (bin as u32);
    if pt > d {
        1
    } else if pt < d {
        -1
    } else {
        0
    }
}

/// Scaled stand return: the distribution weighted by the settle values.
pub open spec fn dot_settle(pt: int, d: Seq<int>) -> int {
    settle(pt, 0) * d[0] + settle(pt, 1) * d[1] + settle(pt, 2) * d[2] + settle(pt, 3) * d[3]
        + settle(pt, 4) * d[4] + settle(pt, 5) * d[5]
}

/// A factor in {-1, 0, 1} can only shrink a non-negative weight.
pub proof fn lemma_pm1_mul(s: int, x: int)
    requires
        -1 <= s <= 1,
        0 <= x,
    ensures
        -x <= s * x <= x,
{
    assert(-x <= s * x <= x) by (nonlinear_arith)
        requires
            -1 <= s <= 1,
            0 <= x,
    ;
}

pub proof fn lemma_dot_bound(pt: int, d: Seq<int>)
    requires
        forall|i: int| 0 <= i < 6 ==> 0 <= #[trigger] d[i],
    ensures
        -sum6(d) <= dot_settle(pt, d) <= sum6(d),
{
    lemma_pm1_mul(settle(pt, 0), d[0]);
    lemma_pm1_mul(settle(pt, 1), d[1]);
    lemma_pm1_mul(settle(pt, 2), d[2]);
    lemma_pm1_mul(settle(pt, 3), d[3]);
    lemma_pm1_mul(settle(pt, 4), d[4]);
    lemma_pm1_mul(settle(pt, 5), d[5]);
}

/// Exact per-stake value of standing on total `pt` against up-card `up`
/// over deck `c`, conditioned on the hole-card constraint `hc`: the
/// hole card is enumerated over the admissible ranks, the dealer runs
/// out, and each outcome settles to -1, 0 or +1. Zero (over 1) when the
/// deck has no admissible hole card.
pub open spec fn stand_value(c: Seq<u32>, pt: int, up: int, h17: bool, hc: int) -> (int, int) {
    if allowed_sum(c, hc, 10) == 0 {
        (0, 1)
    } else {
        (dot_settle(pt, cond_dist(c, up, h17, hc, 10)), cond_den(c, hc))
    }
}

/// A stand value is a proper expected value: its denominator is
/// positive and its magnitude never exceeds one.
pub proof fn lemma_stand_props(c: Seq<u32>, pt: int, up: int, h17: bool, hc: int)
    requires
        c.len() == 10,
        dsum(c, 10) <= 416,
    ensures
        ({
            let (num, den) = stand_value(c, pt, up, h17, hc);
            &&& 1 <= den
            &&& -den <= num <= den
            &&& (allowed_sum(c, hc, 10) >= 1 ==> den == allowed_sum(c, hc, 10) * scale_den(
                dsum(c, 10) - 1,
                11,
            ))
        }),
{
    let a = allowed_sum(c, hc, 10);
    lemma_allowed_sum_nonneg(c, hc, 10);
    if a != 0 {
        lemma_dsum_nonneg(c, 10);
        lemma_allowed_le_dsum(c, hc, 10);
        if dsum(c, 10) == 0 {
        } else {
            lemma_cond_total(c, up, h17, hc, 10);
            lemma_dot_bound(pt, cond_dist(c, up, h17, hc, 10));
            crate::dealer::lemma_scale_cap(dsum(c, 10) - 1, 11);
            lemma_mul_inequality(1, a, scale_den(dsum(c, 10) - 1, 11));
            lemma_mul_is_commutative(a, scale_den(dsum(c, 10) - 1, 11));
        }
    }
}

/// The denominator of any stand value over a deck of at most 416 cards
/// stays far below the integer range.
pub proof fn lemma_stand_den_cap(c: Seq<u32>, pt: int, up: int, h17: bool, hc: int)
    requires
        c.len() == 10,
        dsum(c, 10) <= 416,
    ensures
        stand_value(c, pt, up, h17, hc).1 <= 0x10000000000000000000000000000000,
{
    let a = allowed_sum(c, hc, 10);
    lemma_allowed_sum_nonneg(c, hc, 10);
    lemma_allowed_le_dsum(c, hc, 10);
    lemma_dsum_nonneg(c, 10);
    if a != 0 {
        crate::dealer::lemma_scale_cap(dsum(c, 10) - 1, 11);
        lemma_mul_upper_bound(a, 416, scale_den(dsum(c, 10) - 1, 11), 11174119155209583553590348738461696);
    }
}

/// Exact stand expected value (per stake) for a fixed player total,
/// computed from an already-built conditioned distribution.
pub fn stand_ev_from_dist(pt: u32, dist: &Vec<u128>, den: u128, deck: &Vec<u32>, up: usize,
    h17: bool, hc: i32) -> (ev: EvRatio)
    requires
        deck@.len() == 10,
        dsum(deck@, 10) <= 416,
        up < 10,
        dist@.len() == 6,
        den as int == cond_den(deck@, hc as int),
        forall|i: int|
            0 <= i < 6 ==> dist@[i] as int == cond_dist(deck@, up as int, h17, hc as int, 10)[i],
    ensures
        ev.num as int == stand_value(deck@, pt as int, up as int, h17, hc as int).0,
        ev.den as int == stand_value(deck@, pt as int, up as int, h17, hc as int).1,
        1 <= ev.den,
        -(ev.den as int) <= ev.num as int <= ev.den as int,
{
    proof {
        lemma_stand_props(deck@, pt as int, up as int, h17, hc as int);
        lemma_stand_den_cap(deck@, pt as int, up as int, h17, hc as int);
    }
    if den == 0 {
        proof {
            let a = allowed_sum(deck@, hc as int, 10);
            lemma_allowed_sum_nonneg(deck@, hc as int, 10);
            if a != 0 {
                crate::dealer::lemma_scale_cap(dsum(deck@, 10) - 1, 11);
                assert(a * scale_den(dsum(deck@, 10) - 1, 11) >= 1) by {
                    lemma_mul_inequality(1, a, scale_den(dsum(deck@, 10) - 1, 11));
                    lemma_mul_is_commutative(a, scale_den(dsum(deck@, 10) - 1, 11));
                }
            }
        }
        return EvRatio { num: 0, den: 1 };
    }
    proof {
        lemma_dsum_nonneg(deck@, 10);
        lemma_allowed_sum_nonneg(deck@, hc as int, 10);
        lemma_allowed_le_dsum(deck@, hc as int, 10);
        if allowed_sum(deck@, hc as int, 10) == 0 {
            assert(cond_den(deck@, hc as int) == 0) by (nonlinear_arith)
                requires
                    allowed_sum(deck@, hc as int, 10) == 0,
                    cond_den(deck@, hc as int) == allowed_sum(deck@, hc as int, 10) * scale_den(
                        dsum(deck@, 10) - 1,
                        11,
                    ),
            ;
        }
        lemma_cond_total(deck@, up as int, h17, hc as int, 10);
        let d = cond_dist(deck@, up as int, h17, hc as int, 10);
        lemma_pm1_mul(settle(pt as int, 0), d[0]);
        lemma_pm1_mul(settle(pt as int, 1), d[1]);
        lemma_pm1_mul(settle(pt as int, 2), d[2]);
        lemma_pm1_mul(settle(pt as int, 3), d[3]);
        lemma_pm1_mul(settle(pt as int, 4), d[4]);
        lemma_pm1_mul(settle(pt as int, 5), d[5]);
    }
    let mut num: i128 = 0;
    let s0 = settle_vs_player(pt, 0);
    let s1 = settle_vs_player(pt, 1);
    let s2 = settle_vs_player(pt, 2);
    let s3 = settle_vs_player(pt, 3);
    let s4 = settle_vs_player(pt, 4);
    let s5 = settle_vs_player(pt, 5);
    num = (s0 as i128) * (dist[0] as i128) + (s1 as i128) * (dist[1] as i128) + (s2 as i128) * (
    dist[2] as i128) + (s3 as i128) * (dist[3] as i128) + (s4 as i128) * (dist[4] as i128) + (
    s5 as i128) * (dist[5] as i128);
    EvRatio { num, den }
}

/// Exact stand expected value (per stake) for a fixed player total.
pub fn stand_ev_q(pt: u32, up: usize, deck: &Vec<u32>, h17: bool, hc: i32) -> (ev: EvRatio)
    requires
        deck@.len() == 10,
        dsum(deck@, 10) <= 416,
        up < 10,
    ensures
        ev.num as int == stand_value(deck@, pt as int, up as int, h17, hc as int).0,
        ev.den as int == stand_value(deck@, pt as int, up as int, h17, hc as int).1,
        1 <= ev.den,
        -(ev.den as int) <= ev.num as int <= ev.den as int,
{
    let (dist, den) = distribution_given_upcard(up, deck, h17, hc);
    stand_ev_from_dist(pt, &dist, den, deck, up, h17, hc)
}

/// Floor at one, keeping degenerate scale factors positive.
pub open spec fn max1(x: int) -> int {
    if x >= 1 {
        x
    } else {
        1
    }
}

/// Any scale with 11 draws of head-room over at most 416 cards stays
/// below 416 to the 11th.
pub proof fn lemma_scale_cap11(n: int)
    requires
        n <= 416,
    ensures
        1 <= scale_den(n, 11) <= 64569383062185555852385058816,
{
    lemma_scale_le_pow(n, 11, 416);
    assert(pow(416, 11) == 64569383062185555852385058816) by {
        reveal_with_fuel(pow, 12);
    }
}

/// Scale factor that lifts the stand value of the deck less rank `r` to
/// the common hit denominator: the admissible-count factor the child is
/// missing.
pub open spec fn hit_pad(c: Seq<u32>, hc: int, r: int) -> int {
    let a0 = allowed_sum(c, hc, 10);
    if hole_ok(hc, r) {
        max1(a0)
    } else {
        max1(a0 - 1)
    }
}

/// Scaled sum over drawable ranks `r < k` of `count(r)` times the stand
/// value of the new total over the deck less that card, lifted to the
/// common denominator `hit_den`.
pub open spec fn hit_num_sum(
    c: Seq<u32>,
    pt: int,
    ps: bool,
    up: int,
    h17: bool,
    hc: int,
    k: int,
) -> int
    decreases k,
{
    if k <= 0 {
        0
    } else {
        let rest = hit_num_sum(c, pt, ps, up, h17, hc, k - 1);
        let r = k - 1;
        if c[r] > 0 {
            let c2 = c.update(r, (c[r] - 1) as u32);
            let t2 = add_card(pt, ps, r);
            rest + c[r] * (stand_value(c2, t2.0, up, h17, hc).0 * hit_pad(c, hc, r))
        } else {
            rest
        }
    }
}

/// Common denominator of a hit value: deck size times both possible
/// admissible counts (each floored at 1) times the grandchild scale.
pub open spec fn hit_den(c: Seq<u32>, hc: int) -> int {
    let n = dsum(c, 10);
    let a0 = allowed_sum(c, hc, 10);
    n * (max1(a0) * (max1(a0 - 1) * scale_den(n - 2, 11)))
}

/// Exact per-stake value of drawing exactly one card and then standing:
/// each drawable rank is weighted by its count, the card joins the
/// hand, and the resulting total stands (a bust settles at -1 through
/// the same stand computation). Zero when fewer than two cards remain.
pub open spec fn hit_value(c: Seq<u32>, pt: int, ps: bool, up: int, h17: bool, hc: int) -> (
    int,
    int,
) {
    if dsum(c, 10) <= 1 {
        (0, 1)
    } else {
        (hit_num_sum(c, pt, ps, up, h17, hc, 10), hit_den(c, hc))
    }
}

/// One hit term, lifted to the common denominator, is bounded by the
/// per-card weight of that denominator.
pub proof fn lemma_hit_term_bound(
    c: Seq<u32>,
    pt: int,
    ps: bool,
    up: int,
    h17: bool,
    hc: int,
    r: int,
)
    requires
        c.len() == 10,
        2 <= dsum(c, 10) <= 416,
        0 <= r < 10,
        c[r] > 0,
    ensures
        ({
            let c2 = c.update(r, (c[r] - 1) as u32);
            let t2 = add_card(pt, ps, r);
            let w = stand_value(c2, t2.0, up, h17, hc).0 * hit_pad(c, hc, r);
            let a0 = allowed_sum(c, hc, 10);
            let x = max1(a0) * (max1(a0 - 1) * scale_den(dsum(c, 10) - 2, 11));
            -x <= w <= x
        }),
{
    let n = dsum(c, 10);
    let a0 = allowed_sum(c, hc, 10);
    let c2 = c.update(r, (c[r] - 1) as u32);
    let t2 = add_card(pt, ps, r);
    let sd = scale_den(n - 2, 11);
    let pad = hit_pad(c, hc, r);
    let x = max1(a0) * (max1(a0 - 1) * sd);
    lemma_dsum_update(c, r, (c[r] - 1) as u32, 10);
    lemma_allowed_update(c, hc, r, (c[r] - 1) as u32, 10);
    lemma_allowed_sum_nonneg(c, hc, 10);
    lemma_allowed_sum_nonneg(c2, hc, 10);
    lemma_scale_cap11(n - 2);
    lemma_stand_props(c2, t2.0, up, h17, hc);
    let a2 = allowed_sum(c2, hc, 10);
    let sv = stand_value(c2, t2.0, up, h17, hc);
    assert(1 <= x) by (nonlinear_arith)
        requires
            1 <= max1(a0),
            1 <= max1(a0 - 1),
            1 <= sd,
            x == max1(a0) * (max1(a0 - 1) * sd),
    ;
    if a2 == 0 {
        assert(sv.0 == 0);
        assert(0 * pad == 0) by (nonlinear_arith);
    } else {
        assert(sv.1 == a2 * sd);
        assert(a2 * pad == max1(a0) * max1(a0 - 1)) by (nonlinear_arith)
            requires
                a2 >= 1,
                (if hole_ok(hc, r) {
                    a2 == a0 - 1 && pad == max1(a0)
                } else {
                    a2 == a0 && pad == max1(a0 - 1)
                }),
                a0 >= 0,
                max1(a0) == (if a0 >= 1 { a0 } else { 1 }),
                max1(a0 - 1) == (if a0 - 1 >= 1 { a0 - 1 } else { 1 }),
        ;
        assert(-x <= sv.0 * pad <= x) by (nonlinear_arith)
            requires
                -(a2 * sd) <= sv.0 <= a2 * sd,
                a2 * pad == max1(a0) * max1(a0 - 1),
                pad >= 1,
                sd >= 1,
                a2 >= 1,
                x == max1(a0) * (max1(a0 - 1) * sd),
        ;
    }
}

/// The partial hit sums stay within the drawable weight so far times
/// the per-card bound.
pub proof fn lemma_hit_sum_bound(
    c: Seq<u32>,
    pt: int,
    ps: bool,
    up: int,
    h17: bool,
    hc: int,
    k: int,
)
    requires
        c.len() == 10,
        2 <= dsum(c, 10) <= 416,
        0 <= k <= 10,
    ensures
        ({
            let a0 = allowed_sum(c, hc, 10);
            let x = max1(a0) * (max1(a0 - 1) * scale_den(dsum(c, 10) - 2, 11));
            -(dsum(c, k) * x) <= hit_num_sum(c, pt, ps, up, h17, hc, k) <= dsum(c, k) * x
        }),
    decreases k,
{
    let a0 = allowed_sum(c, hc, 10);
    let x = max1(a0) * (max1(a0 - 1) * scale_den(dsum(c, 10) - 2, 11));
    lemma_scale_cap11(dsum(c, 10) - 2);
    assert(1 <= x) by (nonlinear_arith)
        requires
            1 <= max1(a0),
            1 <= max1(a0 - 1),
            1 <= scale_den(dsum(c, 10) - 2, 11),
            x == max1(a0) * (max1(a0 - 1) * scale_den(dsum(c, 10) - 2, 11)),
    ;
    lemma_dsum_nonneg(c, k);
    if k <= 0 {
        assert(dsum(c, k) * x == 0) by (nonlinear_arith)
            requires
                dsum(c, k) == 0,
        ;
    } else {
        let r = k - 1;
        lemma_hit_sum_bound(c, pt, ps, up, h17, hc, k - 1);
        lemma_dsum_nonneg(c, k - 1);
        if c[r] > 0 {
            lemma_hit_term_bound(c, pt, ps, up, h17, hc, r);
            let c2 = c.update(r, (c[r] - 1) as u32);
            let t2 = add_card(pt, ps, r);
            let w = stand_value(c2, t2.0, up, h17, hc).0 * hit_pad(c, hc, r);
            assert(-(c[r] * x) <= c[r] * w <= c[r] * x) by (nonlinear_arith)
                requires
                    -x <= w <= x,
                    c[r] >= 0,
            ;
            assert(dsum(c, k - 1) * x + c[r] * x == dsum(c, k) * x) by (nonlinear_arith)
                requires
                    dsum(c, k) == dsum(c, k - 1) + c[r],
            ;
        }
    }
}

/// The hit denominator is positive and stays far below the integer
/// range.
pub proof fn lemma_hit_den_cap(c: Seq<u32>, hc: int)
    requires
        c.len() == 10,
        2 <= dsum(c, 10) <= 416,
    ensures
        1 <= hit_den(c, hc) <= 4648433568567186758293585075200065536,
        hit_den(c, hc) == dsum(c, 10) * (max1(allowed_sum(c, hc, 10)) * (max1(
            allowed_sum(c, hc, 10) - 1,
        ) * scale_den(dsum(c, 10) - 2, 11))),
{
    let n = dsum(c, 10);
    let a0 = allowed_sum(c, hc, 10);
    let sd = scale_den(n - 2, 11);
    lemma_scale_cap11(n - 2);
    lemma_allowed_le_dsum(c, hc, 10);
    lemma_allowed_sum_nonneg(c, hc, 10);
    assert(1 <= n * (max1(a0) * (max1(a0 - 1) * sd)) <= 4648433568567186758293585075200065536)
        by (nonlinear_arith)
        requires
            2 <= n <= 416,
            1 <= max1(a0) <= 416,
            1 <= max1(a0 - 1) <= 416,
            1 <= sd <= 64569383062185555852385058816,
    ;
}

/// Exact one-card hit-then-stand expected value (per stake).
#[verifier::loop_isolation(false)]
pub fn hit_then_stand_ev_q(pt: u32, ps: bool, up: usize, deck: &Vec<u32>, h17: bool, hc: i32) -> (ev:
    EvRatio)
    requires
        deck@.len() == 10,
        dsum(deck@, 10) <= 416,
        up < 10,
        pt <= 32,
        ps ==> 11 <= pt <= 21,
    ensures
        ev.num as int == hit_value(deck@, pt as int, ps, up as int, h17, hc as int).0,
        ev.den as int == hit_value(deck@, pt as int, ps, up as int, h17, hc as int).1,
        1 <= ev.den,
        -(ev.den as int) <= ev.num as int <= ev.den as int,
{
    let n = crate::deck::deck_total(deck);
    proof {
        lemma_dsum_nonneg(deck@, 10);
    }
    if n <= 1 {
        return EvRatio { num: 0, den: 1 };
    }
    proof {
        lemma_hit_den_cap(deck@, hc as int);
        lemma_hit_sum_bound(deck@, pt as int, ps, up as int, h17, hc as int, 10);
    }
    let a0 = crate::deck::allowed_total(deck, hc);
    proof {
        lemma_allowed_le_dsum(deck@, hc as int, 10);
        lemma_allowed_sum_nonneg(deck@, hc as int, 10);
    }
    let pad_in: u64 = if a0 >= 1 {
        a0
    } else {
        1
    };
    let pad_out: u64 = if a0 >= 2 {
        a0 - 1
    } else {
        1
    };
    let ghost c0 = deck@;
    let ghost x = max1(allowed_sum(c0, hc as int, 10)) * (max1(
        allowed_sum(c0, hc as int, 10) - 1,
    ) * scale_den(dsum(c0, 10) - 2, 11));
    proof {
        lemma_scale_cap11(dsum(c0, 10) - 2);
        assert(1 <= x) by (nonlinear_arith)
            requires
                1 <= max1(allowed_sum(c0, hc as int, 10)),
                1 <= max1(allowed_sum(c0, hc as int, 10) - 1),
                1 <= scale_den(dsum(c0, 10) - 2, 11),
                x == max1(allowed_sum(c0, hc as int, 10)) * (max1(
                    allowed_sum(c0, hc as int, 10) - 1,
                ) * scale_den(dsum(c0, 10) - 2, 11)),
        ;
    }
    let mut c = crate::dealer::copy_counts(deck);
    let mut acc: i128 = 0;
    let mut r: usize = 0;
    while r < 10
        invariant
            c@ == c0,
            r <= 10,
            acc as int == hit_num_sum(c0, pt as int, ps, up as int, h17, hc as int, r as int),
        decreases 10 - r,
    {
        let cr = c[r];
        if cr > 0 {
            proof {
                lemma_dsum_update(c0, r as int, (cr - 1) as u32, 10);
                lemma_count_le_dsum(c0, r as int, 10);
                lemma_hit_term_bound(c0, pt as int, ps, up as int, h17, hc as int, r as int);
                lemma_hit_sum_bound(c0, pt as int, ps, up as int, h17, hc as int, r as int);
                lemma_hit_sum_bound(c0, pt as int, ps, up as int, h17, hc as int, r as int + 1);
                lemma_stand_den_cap(
                    c0.update(r as int, (cr - 1) as u32),
                    add_card(pt as int, ps, r as int).0,
                    up as int,
                    h17,
                    hc as int,
                );
                lemma_dsum_nonneg(c0, r as int);
                crate::deck::lemma_partial_dsum_le(c0, r as int + 1, 10);
                lemma_dsum_nonneg(c0, r as int + 1);
                assert(dsum(c0, r as int) * x >= 0) by (nonlinear_arith)
                    requires
                        dsum(c0, r as int) >= 0,
                        x >= 1,
                ;
                assert(dsum(c0, r as int + 1) * x <= 416 * x) by (nonlinear_arith)
                    requires
                        dsum(c0, r as int + 1) <= 416,
                        x >= 1,
                ;
                assert(416 * x <= 4648433568567186758293585075200065536) by (nonlinear_arith)
                    requires
                        1 <= max1(allowed_sum(c0, hc as int, 10)) <= 416,
                        1 <= max1(allowed_sum(c0, hc as int, 10) - 1) <= 416,
                        1 <= scale_den(dsum(c0, 10) - 2, 11) <= 64569383062185555852385058816,
                        x == max1(allowed_sum(c0, hc as int, 10)) * (max1(
                            allowed_sum(c0, hc as int, 10) - 1,
                        ) * scale_den(dsum(c0, 10) - 2, 11)),
                ;
            }
            c.set(r, cr - 1);
            let t2 = add_to(pt, ps, r);
            let sv = stand_ev_q(t2.0, up, &c, h17, hc);
            let pad: u64 = if crate::cards::hole_allowed(hc, r) {
                pad_in
            } else {
                pad_out
            };
            proof {
                let w = stand_value(
                    c0.update(r as int, (cr - 1) as u32),
                    add_card(pt as int, ps, r as int).0,
                    up as int,
                    h17,
                    hc as int,
                ).0 * hit_pad(c0, hc as int, r as int);
                assert(-x <= w <= x);
                assert(-(cr as int * x) <= cr as int * w <= cr as int * x) by (nonlinear_arith)
                    requires
                        -x <= w <= x,
                        cr as int >= 0,
                ;
                assert(cr as int * x <= 416 * x) by (nonlinear_arith)
                    requires
                        cr as int <= 416,
                        x >= 1,
                ;
            }
            let term: i128 = (cr as i128) * (sv.num * (pad as i128));
            acc = acc + term;
            c.set(r, cr);
            proof {
                assert(c@ =~= c0);
            }
        }
        r = r + 1;
    }
    let nn = crate::dealer::deck_total_u32(&c);
    let sd = scale_den_exec(nn - 2, 11);
    proof {
        lemma_scale_cap11(dsum(c0, 10) - 2);
        assert((pad_out as int) * (sd as int) <= 26860863353869191234592184467456)
            by (nonlinear_arith)
            requires
                0 <= pad_out as int <= 416,
                0 <= sd as int <= 64569383062185555852385058816,
        ;
        assert((pad_in as int) * ((pad_out as int) * (sd as int))
            <= 11174119155209583553590348738461696) by (nonlinear_arith)
            requires
                0 <= pad_in as int <= 416,
                0 <= (pad_out as int) * (sd as int) <= 26860863353869191234592184467456,
        ;
        assert((nn as int) * ((pad_in as int) * ((pad_out as int) * (sd as int)))
            <= 4648433568567186758293585075200065536) by (nonlinear_arith)
            requires
                0 <= nn as int <= 416,
                0 <= (pad_in as int) * ((pad_out as int) * (sd as int))
                    <= 11174119155209583553590348738461696,
        ;
    }
    let den: u128 = (nn as u128) * ((pad_in as u128) * ((pad_out as u128) * sd));
    EvRatio { num: acc, den }
}

/// Exact doubling expected value, per unit of the original stake: one
/// forced card, then stand. Its per-stake value coincides with the
/// one-card hit-then-stand value; the doubled stake is applied at
/// settlement, not here.
pub fn double_ev_q(pt: u32, ps: bool, up: usize, deck: &Vec<u32>, h17: bool, hc: i32) -> (ev:
    EvRatio)
    requires
        deck@.len() == 10,
        dsum(deck@, 10) <= 416,
        up < 10,
        pt <= 32,
        ps ==> 11 <= pt <= 21,
    ensures
        ev.num as int == hit_value(deck@, pt as int, ps, up as int, h17, hc as int).0,
        ev.den as int == hit_value(deck@, pt as int, ps, up as int, h17, hc as int).1,
        1 <= ev.den,
        -(ev.den as int) <= ev.num as int <= ev.den as int,
{
    hit_then_stand_ev_q(pt, ps, up, deck, h17, hc)
}


/// Appending one more factor to a scale multiplies by the next
/// descending term.
pub proof fn lemma_scale_append(x: int, l: int)
    requires
        0 <= l,
    ensures
        scale_den(x, l + 1) == scale_den(x, l) * max1(x - l),
    decreases l,
{
    if l == 0 {
        assert(scale_den(x, 1) == max1(x) * scale_den(x - 1, 0));
        assert(scale_den(x - 1, 0) == 1);
        assert(max1(x) * 1 == max1(x)) by (nonlinear_arith);
    } else {
        lemma_scale_append(x - 1, l - 1);
        assert(scale_den(x, l + 1) == max1(x) * scale_den(x - 1, l));
        assert(scale_den(x, l) == max1(x) * scale_den(x - 1, l - 1));
        assert(max1(x) * (scale_den(x - 1, l - 1) * max1(x - l)) == (max1(x) * scale_den(
            x - 1,
            l - 1,
        )) * max1(x - l)) by (nonlinear_arith);
    }
}

/// Scale factors floored at one agree with the raw head factor.
pub proof fn lemma_scale_head(x: int, l: int)
    requires
        1 <= l,
    ensures
        scale_den(x, l) == max1(x) * scale_den(x - 1, l - 1),
{
}

/// Common denominator for comparing a split child's stand and hit
/// values: both admissible counts, the child deck size and twelve
/// descending scale factors, every factor floored at one.
pub open spec fn child_den(c2: Seq<u32>, hc: int) -> int {
    let m = dsum(c2, 10);
    let a = allowed_sum(c2, hc, 10);
    max1(a) * (max1(a - 1) * (max1(m) * scale_den(m - 1, 12)))
}

/// Factor lifting a child stand value to the common child denominator.
pub open spec fn child_stand_lift(c2: Seq<u32>, hc: int) -> int {
    let m = dsum(c2, 10);
    let a = allowed_sum(c2, hc, 10);
    max1(a - 1) * (max1(m) * max1(m - 12))
}

/// The common child denominator factors through both the stand and the
/// hit denominators, so lifting either numerator preserves its value.
pub proof fn lemma_child_den_factors(c2: Seq<u32>, hc: int)
    requires
        c2.len() == 10,
    ensures
        allowed_sum(c2, hc, 10) >= 1 ==> child_den(c2, hc) == (allowed_sum(c2, hc, 10)
            * scale_den(dsum(c2, 10) - 1, 11)) * child_stand_lift(c2, hc),
        dsum(c2, 10) >= 2 ==> child_den(c2, hc) == hit_den(c2, hc) * max1(dsum(c2, 10) - 1),
{
    let m = dsum(c2, 10);
    let a = allowed_sum(c2, hc, 10);
    lemma_dsum_nonneg(c2, 10);
    lemma_scale_append(m - 1, 11);
    assert(scale_den(m - 1, 12) == scale_den(m - 1, 11) * max1(m - 12));
    if a >= 1 {
        assert(max1(a) * (max1(a - 1) * (max1(m) * (scale_den(m - 1, 11) * max1(m - 12)))) == (a
            * scale_den(m - 1, 11)) * (max1(a - 1) * (max1(m) * max1(m - 12))))
            by (nonlinear_arith)
            requires
                max1(a) == a,
        ;
    }
    if m >= 2 {
        lemma_scale_head(m - 1, 12);
        assert(scale_den(m - 1, 12) == max1(m - 1) * scale_den(m - 2, 11));
        assert(max1(a) * (max1(a - 1) * (max1(m) * (max1(m - 1) * scale_den(m - 2, 11)))) == (m
            * (max1(a) * (max1(a - 1) * scale_den(m - 2, 11)))) * max1(m - 1))
            by (nonlinear_arith)
            requires
                max1(m) == m,
        ;
    }
}

/// Best achievable value for one split child, lifted to the common
/// child denominator: the stand value, or the better of stand and
/// one-card-hit when the child may keep playing (doubling coincides
/// with the hit value per stake, so the same comparison covers it).
pub open spec fn child_best_value(
    c2: Seq<u32>,
    t2: int,
    s2: bool,
    up: int,
    h17: bool,
    hc: int,
    stand_only: bool,
) -> int {
    let m = dsum(c2, 10);
    let es = stand_value(c2, t2, up, h17, hc).0 * child_stand_lift(c2, hc);
    let eh = hit_value(c2, t2, s2, up, h17, hc).0 * max1(m - 1);
    if stand_only {
        es
    } else if es >= eh {
        es
    } else {
        eh
    }
}

/// A lifted child value never exceeds the common child denominator in
/// magnitude.
pub proof fn lemma_child_best_bound(
    c2: Seq<u32>,
    t2: int,
    s2: bool,
    up: int,
    h17: bool,
    hc: int,
    stand_only: bool,
)
    requires
        c2.len() == 10,
        dsum(c2, 10) <= 416,
    ensures
        1 <= child_den(c2, hc),
        -child_den(c2, hc) <= child_best_value(c2, t2, s2, up, h17, hc, stand_only) <= child_den(
            c2,
            hc,
        ),
{
    let m = dsum(c2, 10);
    let a = allowed_sum(c2, hc, 10);
    let cd = child_den(c2, hc);
    lemma_dsum_nonneg(c2, 10);
    lemma_allowed_sum_nonneg(c2, hc, 10);
    lemma_allowed_le_dsum(c2, hc, 10);
    lemma_child_den_factors(c2, hc);
    lemma_stand_props(c2, t2, up, h17, hc);
    crate::dealer::lemma_scale_cap(m - 1, 12);
    assert(1 <= cd) by (nonlinear_arith)
        requires
            1 <= max1(a),
            1 <= max1(a - 1),
            1 <= max1(m),
            1 <= scale_den(m - 1, 12),
            cd == max1(a) * (max1(a - 1) * (max1(m) * scale_den(m - 1, 12))),
    ;
    let sv = stand_value(c2, t2, up, h17, hc);
    let es = sv.0 * child_stand_lift(c2, hc);
    assert(-cd <= es <= cd) by {
        if a == 0 {
            assert(sv.0 == 0);
            assert(0 * child_stand_lift(c2, hc) == 0) by (nonlinear_arith);
        } else {
            assert(cd == sv.1 * child_stand_lift(c2, hc));
            assert(1 <= child_stand_lift(c2, hc)) by (nonlinear_arith)
                requires
                    1 <= max1(a - 1),
                    1 <= max1(m),
                    1 <= max1(m - 12),
                    child_stand_lift(c2, hc) == max1(a - 1) * (max1(m) * max1(m - 12)),
            ;
            assert(-(sv.1 * child_stand_lift(c2, hc)) <= sv.0 * child_stand_lift(c2, hc) <= sv.1
                * child_stand_lift(c2, hc)) by (nonlinear_arith)
                requires
                    -sv.1 <= sv.0 <= sv.1,
                    1 <= child_stand_lift(c2, hc),
            ;
        }
    }
    let hv = hit_value(c2, t2, s2, up, h17, hc);
    let eh = hv.0 * max1(m - 1);
    assert(-cd <= eh <= cd) by {
        if m <= 1 {
            assert(hv.0 == 0);
            assert(0 * max1(m - 1) == 0) by (nonlinear_arith);
        } else {
            lemma_hit_den_cap(c2, hc);
            lemma_hit_sum_bound(c2, t2, s2, up, h17, hc, 10);
            assert(-hit_den(c2, hc) <= hv.0 <= hit_den(c2, hc)) by (nonlinear_arith)
                requires
                    -(dsum(c2, 10) * (max1(allowed_sum(c2, hc, 10)) * (max1(
                        allowed_sum(c2, hc, 10) - 1,
                    ) * scale_den(dsum(c2, 10) - 2, 11)))) <= hv.0 <= dsum(c2, 10) * (max1(
                        allowed_sum(c2, hc, 10),
                    ) * (max1(allowed_sum(c2, hc, 10) - 1) * scale_den(dsum(c2, 10) - 2, 11))),
                    hv.0 == hit_num_sum(c2, t2, s2, up, h17, hc, 10),
                    hit_den(c2, hc) == dsum(c2, 10) * (max1(allowed_sum(c2, hc, 10)) * (max1(
                        allowed_sum(c2, hc, 10) - 1,
                    ) * scale_den(dsum(c2, 10) - 2, 11))),
            ;
            assert(cd == hit_den(c2, hc) * max1(m - 1));
            assert(-(hit_den(c2, hc) * max1(m - 1)) <= hv.0 * max1(m - 1) <= hit_den(c2, hc)
                * max1(m - 1)) by (nonlinear_arith)
                requires
                    -hit_den(c2, hc) <= hv.0 <= hit_den(c2, hc),
                    1 <= max1(m - 1),
            ;
        }
    }
}

/// Factor lifting one child's common denominator to the whole split
/// denominator: the admissible-count factor that child is missing.
pub open spec fn split_pad(c: Seq<u32>, hc: int, r: int) -> int {
    let a0 = allowed_sum(c, hc, 10);
    if hole_ok(hc, r) {
        max1(a0)
    } else {
        max1(a0 - 2)
    }
}

/// Scaled sum over drawable ranks `r < k` of `count(r)` times the best
/// value of the split child formed by the pair card and that draw.
pub open spec fn split_num_sum(
    c: Seq<u32>,
    pair: int,
    up: int,
    h17: bool,
    hc: int,
    stand_only: bool,
    k: int,
) -> int
    decreases k,
{
    if k <= 0 {
        0
    } else {
        let rest = split_num_sum(c, pair, up, h17, hc, stand_only, k - 1);
        let r = k - 1;
        if c[r] > 0 {
            let c2 = c.update(r, (c[r] - 1) as u32);
            let t2 = two_card(pair, r);
            rest + c[r] * (child_best_value(c2, t2.0, t2.1, up, h17, hc, stand_only) * split_pad(
                c,
                hc,
                r,
            ))
        } else {
            rest
        }
    }
}

/// Common denominator of a split value: deck size, three admissible
/// counts, and the child scale.
pub open spec fn split_den(c: Seq<u32>, hc: int) -> int {
    let n = dsum(c, 10);
    let a0 = allowed_sum(c, hc, 10);
    n * (max1(a0) * (max1(a0 - 1) * (max1(a0 - 2) * (max1(n - 1) * scale_den(n - 2, 12)))))
}

/// Exact per-stake value of one split child averaged over the card it
/// draws: each drawable rank forms the child hand pair-card + draw and
/// contributes its best achievable value; an empty deck gives zero.
/// Both children are treated as identically distributed and
/// independent — a deliberate approximation, since real sibling hands
/// share one depleting deck — so this is also the per-stake split
/// value.
pub open spec fn split_value(
    c: Seq<u32>,
    pair: int,
    up: int,
    h17: bool,
    hc: int,
    stand_only: bool,
) -> (int, int) {
    if dsum(c, 10) == 0 {
        (0, 1)
    } else {
        (split_num_sum(c, pair, up, h17, hc, stand_only, 10), split_den(c, hc))
    }
}

/// The per-card split weight: the whole split denominator divided by
/// the deck size.
pub open spec fn split_unit(c: Seq<u32>, hc: int) -> int {
    let n = dsum(c, 10);
    let a0 = allowed_sum(c, hc, 10);
    max1(a0) * (max1(a0 - 1) * (max1(a0 - 2) * (max1(n - 1) * scale_den(n - 2, 12))))
}

/// One split term, lifted to the split denominator, stays within the
/// per-card weight.
pub proof fn lemma_split_term_bound(
    c: Seq<u32>,
    pair: int,
    up: int,
    h17: bool,
    hc: int,
    stand_only: bool,
    r: int,
)
    requires
        c.len() == 10,
        1 <= dsum(c, 10) <= 416,
        0 <= r < 10,
        c[r] > 0,
    ensures
        ({
            let c2 = c.update(r, (c[r] - 1) as u32);
            let t2 = two_card(pair, r);
            let w = child_best_value(c2, t2.0, t2.1, up, h17, hc, stand_only) * split_pad(
                c,
                hc,
                r,
            );
            -split_unit(c, hc) <= w <= split_unit(c, hc)
        }),
{
    let n = dsum(c, 10);
    let a0 = allowed_sum(c, hc, 10);
    let c2 = c.update(r, (c[r] - 1) as u32);
    let t2 = two_card(pair, r);
    lemma_dsum_update(c, r, (c[r] - 1) as u32, 10);
    lemma_allowed_update(c, hc, r, (c[r] - 1) as u32, 10);
    lemma_allowed_sum_nonneg(c, hc, 10);
    lemma_allowed_sum_nonneg(c2, hc, 10);
    lemma_child_best_bound(c2, t2.0, t2.1, up, h17, hc, stand_only);
    let a2 = allowed_sum(c2, hc, 10);
    let m = dsum(c2, 10);
    let bv = child_best_value(c2, t2.0, t2.1, up, h17, hc, stand_only);
    let pad = split_pad(c, hc, r);
    assert(child_den(c2, hc) * pad == split_unit(c, hc)) by (nonlinear_arith)
        requires
            child_den(c2, hc) == max1(a2) * (max1(a2 - 1) * (max1(m) * scale_den(m - 1, 12))),
            split_unit(c, hc) == max1(a0) * (max1(a0 - 1) * (max1(a0 - 2) * (max1(n - 1)
                * scale_den(n - 2, 12)))),
            m == n - 1,
            (if hole_ok(hc, r) {
                a2 == a0 - 1 && pad == max1(a0)
            } else {
                a2 == a0 && pad == max1(a0 - 2)
            }),
            a0 >= 0,
            a2 >= 0,
            max1(a0) == (if a0 >= 1 { a0 } else { 1 }),
            max1(a0 - 1) == (if a0 - 1 >= 1 { a0 - 1 } else { 1 }),
            max1(a0 - 2) == (if a0 - 2 >= 1 { a0 - 2 } else { 1 }),
            max1(a2) == (if a2 >= 1 { a2 } else { 1 }),
            max1(a2 - 1) == (if a2 - 1 >= 1 { a2 - 1 } else { 1 }),
    ;
    assert(-(child_den(c2, hc) * pad) <= bv * pad <= child_den(c2, hc) * pad)
        by (nonlinear_arith)
        requires
            -child_den(c2, hc) <= bv <= child_den(c2, hc),
            pad >= 1,
    ;
}

/// The partial split sums stay within the drawn weight so far times the
/// per-card weight.
pub proof fn lemma_split_sum_bound(
    c: Seq<u32>,
    pair: int,
    up: int,
    h17: bool,
    hc: int,
    stand_only: bool,
    k: int,
)
    requires
        c.len() == 10,
        1 <= dsum(c, 10) <= 416,
        0 <= k <= 10,
    ensures
        1 <= split_unit(c, hc),
        -(dsum(c, k) * split_unit(c, hc)) <= split_num_sum(c, pair, up, h17, hc, stand_only, k)
            <= dsum(c, k) * split_unit(c, hc),
    decreases k,
{
    let n = dsum(c, 10);
    let a0 = allowed_sum(c, hc, 10);
    let x = split_unit(c, hc);
    crate::dealer::lemma_scale_cap(n - 2, 12);
    assert(1 <= x) by (nonlinear_arith)
        requires
            1 <= max1(a0),
            1 <= max1(a0 - 1),
            1 <= max1(a0 - 2),
            1 <= max1(n - 1),
            1 <= scale_den(n - 2, 12),
            x == max1(a0) * (max1(a0 - 1) * (max1(a0 - 2) * (max1(n - 1) * scale_den(
                n - 2,
                12,
            )))),
    ;
    lemma_dsum_nonneg(c, k);
    if k <= 0 {
        assert(dsum(c, k) * x == 0) by (nonlinear_arith)
            requires
                dsum(c, k) == 0,
        ;
    } else {
        let r = k - 1;
        lemma_split_sum_bound(c, pair, up, h17, hc, stand_only, k - 1);
        lemma_dsum_nonneg(c, k - 1);
        if c[r] > 0 {
            lemma_split_term_bound(c, pair, up, h17, hc, stand_only, r);
            let c2 = c.update(r, (c[r] - 1) as u32);
            let t2 = two_card(pair, r);
            let w = child_best_value(c2, t2.0, t2.1, up, h17, hc, stand_only) * split_pad(
                c,
                hc,
                r,
            );
            assert(-(c[r] * x) <= c[r] * w <= c[r] * x) by (nonlinear_arith)
                requires
                    -x <= w <= x,
                    c[r] >= 0,
            ;
            assert(dsum(c, k - 1) * x + c[r] * x == dsum(c, k) * x) by (nonlinear_arith)
                requires
                    dsum(c, k) == dsum(c, k - 1) + c[r],
            ;
        }
    }
}


/// Each admissible counted rank is no more than the admissible sum.
pub proof fn lemma_count_le_allowed(c: Seq<u32>, hc: int, j: int, k: int)
    requires
        0 <= j < k,
        hole_ok(hc, j),
    ensures
        c[j] <= allowed_sum(c, hc, k),
    decreases k,
{
    lemma_allowed_sum_nonneg(c, hc, j);
    if j < k - 1 {
        lemma_count_le_allowed(c, hc, j, k - 1);
    }
}

/// Exact split expected value per original unit stake: the value of
/// one child, averaged over its first drawn card, treating the two
/// children as independent draws from the same deck (a deliberate
/// approximation; real sibling hands share one depleting deck). When `split_aces_one` holds and the pair is aces, each
/// child is forced to stand after its one card. `das` (double after
/// split) is accepted for interface completeness; since the per-stake
/// doubling value coincides with the hit value, it cannot change which
/// child action is best.
#[verifier::loop_isolation(false)]
#[verifier::rlimit(60)]
pub fn split_ev_q(
    pair: usize,
    up: usize,
    deck: &Vec<u32>,
    h17: bool,
    hc: i32,
    das: bool,
    split_aces_one: bool,
) -> (ev: EvRatio)
    requires
        deck@.len() == 10,
        dsum(deck@, 10) <= 156,
        up < 10,
        pair < 10,
    ensures
        ({
            let so = split_aces_one && pair == 0;
            &&& ev.num as int == split_value(deck@, pair as int, up as int, h17, hc as int, so).0
            &&& ev.den as int == split_value(deck@, pair as int, up as int, h17, hc as int, so).1
            &&& 1 <= ev.den
            &&& -(ev.den as int) <= ev.num as int <= ev.den as int
        }),
{
    let _ = das;
    let n = crate::deck::deck_total(deck);
    proof {
        lemma_dsum_nonneg(deck@, 10);
    }
    if n == 0 {
        return EvRatio { num: 0, den: 1 };
    }
    let ghost c0 = deck@;
    let ghost so = split_aces_one && pair == 0;
    let ghost x = split_unit(c0, hc as int);
    let stand_only = split_aces_one && pair == 0;
    let a0 = crate::deck::allowed_total(deck, hc);
    proof {
        lemma_allowed_le_dsum(c0, hc as int, 10);
        lemma_allowed_sum_nonneg(c0, hc as int, 10);
        lemma_split_sum_bound(c0, pair as int, up as int, h17, hc as int, so, 10);
        lemma_scale_le_pow(dsum(c0, 10) - 2, 12, 156);
        assert(pow(156, 12) == 207728067204059288762843136) by {
            reveal_with_fuel(pow, 13);
        }
        assert(x <= 123025056645280288014028950372089856) by (nonlinear_arith)
            requires
                x == max1(allowed_sum(c0, hc as int, 10)) * (max1(
                    allowed_sum(c0, hc as int, 10) - 1,
                ) * (max1(allowed_sum(c0, hc as int, 10) - 2) * (max1(dsum(c0, 10) - 1)
                    * scale_den(dsum(c0, 10) - 2, 12)))),
                1 <= max1(allowed_sum(c0, hc as int, 10)) <= 156,
                1 <= max1(allowed_sum(c0, hc as int, 10) - 1) <= 156,
                1 <= max1(allowed_sum(c0, hc as int, 10) - 2) <= 156,
                1 <= max1(dsum(c0, 10) - 1) <= 156,
                1 <= scale_den(dsum(c0, 10) - 2, 12) <= 207728067204059288762843136,
        ;
    }
    let ah0: u64 = if a0 >= 1 {
        a0
    } else {
        1
    };
    let ah1: u64 = if a0 >= 2 {
        a0 - 1
    } else {
        1
    };
    let ah2: u64 = if a0 >= 3 {
        a0 - 2
    } else {
        1
    };
    let mut c = crate::dealer::copy_counts(deck);
    let mut acc: i128 = 0;
    let mut r: usize = 0;
    while r < 10
        invariant
            c@ == c0,
            r <= 10,
            acc as int == split_num_sum(c0, pair as int, up as int, h17, hc as int, so, r as int),
        decreases 10 - r,
    {
        let cr = c[r];
        if cr > 0 {
            proof {
                lemma_dsum_update(c0, r as int, (cr - 1) as u32, 10);
                lemma_allowed_update(c0, hc as int, r as int, (cr - 1) as u32, 10);
                lemma_count_le_dsum(c0, r as int, 10);
                if hole_ok(hc as int, r as int) {
                    lemma_count_le_allowed(c0, hc as int, r as int, 10);
                }
                lemma_two_card_props(pair as int, r as int);
                lemma_split_term_bound(c0, pair as int, up as int, h17, hc as int, so, r as int);
                lemma_split_sum_bound(c0, pair as int, up as int, h17, hc as int, so, r as int);
                lemma_split_sum_bound(
                    c0,
                    pair as int,
                    up as int,
                    h17,
                    hc as int,
                    so,
                    r as int + 1,
                );
                lemma_dsum_nonneg(c0, r as int);
                crate::deck::lemma_partial_dsum_le(c0, r as int + 1, 10);
                lemma_dsum_nonneg(c0, r as int + 1);
                assert(dsum(c0, r as int) * x >= 0 && dsum(c0, r as int + 1) * x
                    <= 19191908836663724930188516258046017536) by (nonlinear_arith)
                    requires
                        0 <= dsum(c0, r as int),
                        0 <= dsum(c0, r as int + 1) <= 156,
                        1 <= x <= 123025056645280288014028950372089856,
                ;
            }
            c.set(r, cr - 1);
            let ghost c2 = c0.update(r as int, (cr - 1) as u32);
            let ghost tcs = two_card(pair as int, r as int);
            let first = add_to(0, false, pair);
            let tc = add_to(first.0, crate::cards::value_soft(first), r);
            let es = stand_ev_q(tc.0, up, &c, h17, hc);
            let eh = hit_then_stand_ev_q(tc.0, crate::cards::value_soft(tc), up, &c, h17, hc);
            let nn = n - 1;
            let ar: u64 = if crate::cards::hole_allowed(hc, r) {
                a0 - 1
            } else {
                a0
            };
            let lf_a: i128 = if ar >= 2 {
                (ar - 1) as i128
            } else {
                1
            };
            let lf_m: i128 = if nn >= 1 {
                nn as i128
            } else {
                1
            };
            let lf_m12: i128 = if nn >= 13 {
                (nn - 12) as i128
            } else {
                1
            };
            let lf_h: i128 = if nn >= 2 {
                (nn - 1) as i128
            } else {
                1
            };
            proof {
                lemma_stand_props(c2, tcs.0, up as int, h17, hc as int);
                lemma_allowed_le_dsum(c2, hc as int, 10);
                lemma_allowed_sum_nonneg(c2, hc as int, 10);
                lemma_scale_le_pow(dsum(c2, 10) - 1, 11, 156);
                lemma_scale_le_pow(dsum(c2, 10) - 2, 11, 156);
                assert(pow(156, 11) == 1331590174384995440787456) by {
                    reveal_with_fuel(pow, 12);
                }
                let a2 = allowed_sum(c2, hc as int, 10);
                assert(es.den as int <= 207728067204059288762843136) by (nonlinear_arith)
                    requires
                        es.den as int == stand_value(c2, tcs.0, up as int, h17, hc as int).1,
                        a2 >= 1 ==> stand_value(c2, tcs.0, up as int, h17, hc as int).1 == a2
                            * scale_den(dsum(c2, 10) - 1, 11),
                        a2 == 0 ==> stand_value(c2, tcs.0, up as int, h17, hc as int).1 == 1,
                        0 <= a2 <= 156,
                        1 <= scale_den(dsum(c2, 10) - 1, 11) <= 1331590174384995440787456,
                ;
                assert(1 <= lf_m * lf_m12 <= 24336) by (nonlinear_arith)
                    requires
                        1 <= lf_m <= 156,
                        1 <= lf_m12 <= 156,
                ;
                assert(lf_a * (lf_m * lf_m12) == child_stand_lift(c2, hc as int)
                    && 1 <= child_stand_lift(c2, hc as int) <= 3796416) by (nonlinear_arith)
                    requires
                        lf_a == max1(a2 - 1),
                        lf_m == max1(dsum(c2, 10)),
                        lf_m12 == max1(dsum(c2, 10) - 12),
                        child_stand_lift(c2, hc as int) == max1(a2 - 1) * (max1(dsum(c2, 10))
                            * max1(dsum(c2, 10) - 12)),
                        1 <= max1(a2 - 1) <= 156,
                        1 <= max1(dsum(c2, 10)) <= 156,
                        1 <= max1(dsum(c2, 10) - 12) <= 156,
                ;
                assert(-(es.den as int * 3796416) <= es.num as int * (lf_a * (lf_m * lf_m12))
                    <= es.den as int * 3796416) by (nonlinear_arith)
                    requires
                        -(es.den as int) <= es.num as int <= es.den as int,
                        1 <= lf_a * (lf_m * lf_m12) <= 3796416,
                ;
                assert(es.den as int * 3796416 <= 788622157982565948807877887000576)
                    by (nonlinear_arith)
                    requires
                        0 <= es.den as int <= 207728067204059288762843136,
                ;
                lemma_hit_den_cap_or_one(c2, hc as int);
                assert(-(eh.den as int * lf_h) <= eh.num as int * lf_h <= eh.den as int * lf_h)
                    by (nonlinear_arith)
                    requires
                        -(eh.den as int) <= eh.num as int <= eh.den as int,
                        1 <= lf_h,
                ;
                assert(eh.den as int * lf_h <= 788622157982565948807877887000576)
                    by (nonlinear_arith)
                    requires
                        1 <= eh.den as int <= 5055270243477986851332550557696,
                        1 <= lf_h <= 156,
                ;
            }
            let es_c: i128 = es.num * (lf_a * (lf_m * lf_m12));
            let eh_c: i128 = eh.num * lf_h;
            let best: i128 = if stand_only {
                es_c
            } else if es_c >= eh_c {
                es_c
            } else {
                eh_c
            };
            let pad: u64 = if crate::cards::hole_allowed(hc, r) {
                ah0
            } else {
                ah2
            };
            proof {
                let bv = child_best_value(c2, tcs.0, tcs.1, up as int, h17, hc as int, so);
                assert(best as int == bv);
                assert(-x <= bv * (pad as int) <= x);
                assert(-((cr as int) * x) <= (cr as int) * (bv * (pad as int)) <= (cr as int) * x)
                    by (nonlinear_arith)
                    requires
                        -x <= bv * (pad as int) <= x,
                        0 <= cr as int,
                ;
                assert((cr as int) * x <= 156 * x) by (nonlinear_arith)
                    requires
                        cr as int <= 156,
                        x >= 1,
                ;
                assert(156 * x <= 19191908836663724930188516258046017536) by (nonlinear_arith)
                    requires
                        1 <= x <= 123025056645280288014028950372089856,
                ;
            }
            let term: i128 = (cr as i128) * (best * (pad as i128));
            acc = acc + term;
            c.set(r, cr);
            proof {
                assert(c@ =~= c0);
            }
        }
        r = r + 1;
    }
    let sd12: u128 = if n >= 2 {
        scale_den_exec((n - 2) as u32, 12)
    } else {
        proof {
            crate::dealer::lemma_scale_shift_low(12);
        }
        scale_den_exec(0, 12)
    };
    proof {
        lemma_scale_le_pow(dsum(c0, 10) - 2, 12, 156);
        assert(pow(156, 12) == 207728067204059288762843136) by {
            reveal_with_fuel(pow, 13);
        }
        assert(1 <= (if dsum(c0, 10) - 1 >= 1 { dsum(c0, 10) - 1 } else { 1 }) * (sd12 as int)
            <= 32405578483833249047003529216) by (nonlinear_arith)
            requires
                1 <= (if dsum(c0, 10) - 1 >= 1 { dsum(c0, 10) - 1 } else { 1 }) <= 156,
                1 <= sd12 as int <= 207728067204059288762843136,
        ;
        assert(1 <= (ah2 as int) * (max1(dsum(c0, 10) - 1) * (sd12 as int))
            <= 5055270243477986851332550557696) by (nonlinear_arith)
            requires
                1 <= ah2 as int <= 156,
                1 <= max1(dsum(c0, 10) - 1) * (sd12 as int) <= 32405578483833249047003529216,
        ;
        assert(1 <= (ah1 as int) * ((ah2 as int) * (max1(dsum(c0, 10) - 1) * (sd12 as int)))
            <= 788622157982565948807877887000576) by (nonlinear_arith)
            requires
                1 <= ah1 as int <= 156,
                1 <= (ah2 as int) * (max1(dsum(c0, 10) - 1) * (sd12 as int))
                    <= 5055270243477986851332550557696,
        ;
        assert(1 <= (ah0 as int) * ((ah1 as int) * ((ah2 as int) * (max1(dsum(c0, 10) - 1) * (
        sd12 as int)))) <= 123025056645280288014028950372089856) by (nonlinear_arith)
            requires
                1 <= ah0 as int <= 156,
                1 <= (ah1 as int) * ((ah2 as int) * (max1(dsum(c0, 10) - 1) * (sd12 as int)))
                    <= 788622157982565948807877887000576,
        ;
        assert(1 <= (n as int) * ((ah0 as int) * ((ah1 as int) * ((ah2 as int) * (max1(
            dsum(c0, 10) - 1,
        ) * (sd12 as int))))) <= 19191908836663724930188516258046017536) by (nonlinear_arith)
            requires
                1 <= n as int <= 156,
                1 <= (ah0 as int) * ((ah1 as int) * ((ah2 as int) * (max1(dsum(c0, 10) - 1) * (
                sd12 as int)))) <= 123025056645280288014028950372089856,
        ;
    }
    let lfm: u128 = if n >= 2 {
        (n - 1) as u128
    } else {
        1
    };
    let den: u128 = (n as u128) * ((ah0 as u128) * ((ah1 as u128) * ((ah2 as u128) * (lfm
        * sd12))));
    EvRatio { num: acc, den }
}

/// The hit denominator is positive and bounded for decks of at most
/// 156 cards, whether or not the deck is degenerate.
pub proof fn lemma_hit_den_cap_or_one(c2: Seq<u32>, hc: int)
    requires
        c2.len() == 10,
        dsum(c2, 10) <= 156,
    ensures
        ({
            let hd = if dsum(c2, 10) <= 1 {
                1
            } else {
                hit_den(c2, hc)
            };
            1 <= hd <= 5055270243477986851332550557696
        }),
{
    let m = dsum(c2, 10);
    lemma_dsum_nonneg(c2, 10);
    if m >= 2 {
        let a = allowed_sum(c2, hc, 10);
        lemma_allowed_le_dsum(c2, hc, 10);
        lemma_allowed_sum_nonneg(c2, hc, 10);
        lemma_scale_le_pow(m - 2, 11, 156);
        assert(pow(156, 11) == 1331590174384995440787456) by {
            reveal_with_fuel(pow, 12);
        }
        assert(1 <= m * (max1(a) * (max1(a - 1) * scale_den(m - 2, 11)))
            <= 5055270243477986851332550557696) by (nonlinear_arith)
            requires
                2 <= m <= 156,
                1 <= max1(a) <= 156,
                1 <= max1(a - 1) <= 156,
                1 <= scale_den(m - 2, 11) <= 1331590174384995440787456,
        ;
    }
}


/// The hit denominator bound for decks of at most 312 cards.
pub proof fn lemma_hit_den_cap_or_one_312(c2: Seq<u32>, hc: int)
    requires
        c2.len() == 10,
        dsum(c2, 10) <= 312,
    ensures
        ({
            let hd = if dsum(c2, 10) <= 1 {
                1
            } else {
                hit_den(c2, hc)
            };
            1 <= hd <= 82825547669143336572232508337291264
        }),
{
    let m = dsum(c2, 10);
    lemma_dsum_nonneg(c2, 10);
    if m >= 2 {
        let a = allowed_sum(c2, hc, 10);
        lemma_allowed_le_dsum(c2, hc, 10);
        lemma_allowed_sum_nonneg(c2, hc, 10);
        lemma_scale_le_pow(m - 2, 11, 312);
        assert(pow(312, 11) == 2727096677140470662732709888) by {
            reveal_with_fuel(pow, 12);
        }
        assert(1 <= m * (max1(a) * (max1(a - 1) * scale_den(m - 2, 11)))
            <= 82825547669143336572232508337291264) by (nonlinear_arith)
            requires
                2 <= m <= 312,
                1 <= max1(a) <= 312,
                1 <= max1(a - 1) <= 312,
                1 <= scale_den(m - 2, 11) <= 2727096677140470662732709888,
        ;
    }
}


/// Querying the stand value twice with the same arguments returns
/// bit-identical results: the contract pins the exact numerator and
/// denominator, so any two results of the query for the same player
/// total, up-card, deck snapshot, rules and hole constraint are equal.
pub proof fn lemma_stand_query_idempotent(
    c: Seq<u32>,
    pt: int,
    up: int,
    h17: bool,
    hc: int,
    r1: EvRatio,
    r2: EvRatio,
)
    requires
        r1.num as int == stand_value(c, pt, up, h17, hc).0,
        r1.den as int == stand_value(c, pt, up, h17, hc).1,
        r2.num as int == stand_value(c, pt, up, h17, hc).0,
        r2.den as int == stand_value(c, pt, up, h17, hc).1,
    ensures
        r1 == r2,
{
}

/// The same holds for the one-card hit value and hence for doubling,
/// whose per-stake value coincides with it.
pub proof fn lemma_hit_query_idempotent(
    c: Seq<u32>,
    pt: int,
    ps: bool,
    up: int,
    h17: bool,
    hc: int,
    r1: EvRatio,
    r2: EvRatio,
)
    requires
        r1.num as int == hit_value(c, pt, ps, up, h17, hc).0,
        r1.den as int == hit_value(c, pt, ps, up, h17, hc).1,
        r2.num as int == hit_value(c, pt, ps, up, h17, hc).0,
        r2.den as int == hit_value(c, pt, ps, up, h17, hc).1,
    ensures
        r1 == r2,
{
}


} // verus!
