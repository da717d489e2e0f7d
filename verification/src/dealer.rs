//! Dealer-outcome distribution engine.
//!
//! The dealer's final outcome over a known remaining deck is computed by
//! exact recursive enumeration. A distribution is six integers, one per
//! outcome bucket {17, 18, 19, 20, 21, bust}, scaled so that they sum to
//! `scale_den(n, l)`: the product of `l` factors `n, n-1, ...` (floored
//! at 1), where `n` is the deck size and `l` bounds the draws still
//! possible. Dividing each entry by that scale gives the exact
//! probability; no rounding ever happens.

use vstd::prelude::*;
use vstd::arithmetic::mul::{
    lemma_mul_inequality,
    lemma_mul_is_commutative,
    lemma_mul_nonnegative,
    lemma_mul_upper_bound,
};
use vstd::arithmetic::power::pow;
use crate::cards::{
    add_card,
    add_to,
    chain_bound,
    chain_bound_of,
    dealer_stands,
    hole_ok,
    lemma_chain_bound_step,
    lemma_two_card_props,
    two_card,
};
use crate::deck::{
    allowed_sum,
    dsum,
    lemma_allowed_le_dsum,
    lemma_allowed_sum_nonneg,
    lemma_count_le_dsum,
    lemma_dsum_nonneg,
    lemma_dsum_update,
    lemma_partial_dsum_le,
};

verus! {

/// Scale of a distribution over a deck of `n` cards with `l` draws of
/// head-room: `l` descending factors, each floored at 1 so the scale
/// stays positive even for exhausted decks.
pub open spec fn scale_den(n: int, l: int) -> int
    decreases l,
{
    if l <= 0 {
        1
    } else {
        (if n >= 1 {
            n
        } else {
            1
        }) * scale_den(n - 1, l - 1)
    }
}

/// The outcome bucket a final dealer total falls into: 0..=4 for totals
/// 17..=21, 5 for a bust; totals under 17 (exhausted-deck fallback)
/// clamp to the 17 bucket.
pub open spec fn bucket_of(t: int) -> int {
    if t > 21 {
        5
    } else if t < 17 {
        0
    } else {
        t - 17
    }
}

pub open spec fn zero6() -> Seq<int> {
    Seq::new(6, |j: int| 0)
}

pub open spec fn one_hot6(i: int, v: int) -> Seq<int> {
    Seq::new(6, |j: int| if j == i {
        v
    } else {
        0
    })
}

pub open spec fn add6(a: Seq<int>, b: Seq<int>) -> Seq<int> {
    Seq::new(6, |j: int| a[j] + b[j])
}

pub open spec fn scale6(k: int, a: Seq<int>) -> Seq<int> {
    Seq::new(6, |j: int| k * a[j])
}

pub open spec fn sum6(a: Seq<int>) -> int {
    a[0] + a[1] + a[2] + a[3] + a[4] + a[5]
}

/// The exact scaled dealer-outcome distribution from running total `t`,
/// softness `s`, over deck `c`, with `l` draws of head-room.
///
/// A standing (or busted) total puts all mass on its bucket; an
/// exhausted deck clamps the total into the buckets as a defensive
/// fallback; otherwise every rank still in the deck is drawn with weight
/// equal to its count and the child distributions are accumulated.
pub open spec fn dealer_outcome(c: Seq<u32>, t: int, s: bool, h17: bool, l: int) -> Seq<int>
    decreases l, 0int, 0int,
{
    let n = dsum(c, 10);
    if t > 21 || dealer_stands(t, s, h17) || n == 0 || l <= 0 {
        one_hot6(bucket_of(t), scale_den(n, l))
    } else {
        draw_outcomes(c, t, s, h17, l - 1, 10)
    }
}

/// Sum over ranks `r < k` still in the deck of `count(r)` times the
/// distribution after drawing one card of rank `r`.
pub open spec fn draw_outcomes(c: Seq<u32>, t: int, s: bool, h17: bool, l: int, k: int) -> Seq<
    int,
>
    decreases l, 1int, k,
{
    if k <= 0 {
        zero6()
    } else {
        let rest = draw_outcomes(c, t, s, h17, l, k - 1);
        let r = k - 1;
        if c[r] > 0 {
            let nx = add_card(t, s, r);
            let child = dealer_outcome(c.update(r, (c[r] - 1) as u32), nx.0, nx.1, h17, l);
            add6(rest, scale6(c[r] as int, child))
        } else {
            rest
        }
    }
}

/// The scale is at least 1 and at most `b` to the `l` for any deck of at
/// most `b` cards.
pub proof fn lemma_scale_le_pow(n: int, l: nat, b: int)
    requires
        n <= b,
        1 <= b,
    ensures
        1 <= scale_den(n, l as int) <= pow(b, l),
    decreases l,
{
    reveal(pow);
    if l == 0 {
    } else {
        lemma_scale_le_pow(n - 1, (l - 1) as nat, b);
        let f = if n >= 1 {
            n
        } else {
            1
        };
        let rest = scale_den(n - 1, l as int - 1);
        lemma_mul_inequality(1, rest, f);
        lemma_mul_is_commutative(f, rest);
        lemma_mul_upper_bound(f, b, rest, pow(b, (l - 1) as nat));
        assert(pow(b, l) == b * pow(b, (l - 1) as nat));
    }
}

/// Numeric cap used for overflow reasoning: every scale that appears in
/// a dealer distribution over at most 416 cards with at most 13 draws of
/// head-room stays below 2^113.
pub proof fn lemma_scale_cap(n: int, l: nat)
    requires
        n <= 416,
        l <= 13,
    ensures
        1 <= scale_den(n, l as int) <= 11174119155209583553590348738461696,
{
    lemma_scale_le_pow(n, l, 416);
    vstd::arithmetic::power::lemma_pow_increases(416, l, 13);
    assert(pow(416, 13) == 11174119155209583553590348738461696) by {
        reveal_with_fuel(pow, 14);
    }
}

/// Every dealer distribution is non-negative and sums to exactly its
/// scale: the probabilities over the six outcome buckets sum to exactly
/// one for every deck, empty or not.
pub proof fn lemma_outcome_total(c: Seq<u32>, t: int, s: bool, h17: bool, l: int)
    requires
        c.len() == 10,
        0 <= l,
    ensures
        sum6(dealer_outcome(c, t, s, h17, l)) == scale_den(dsum(c, 10), l),
        forall|i: int|
            0 <= i < 6 ==> 0 <= #[trigger] dealer_outcome(c, t, s, h17, l)[i] <= scale_den(
                dsum(c, 10),
                l,
            ),
    decreases l, 0int, 0int,
{
    let n = dsum(c, 10);
    lemma_dsum_nonneg(c, 10);
    if t > 21 || dealer_stands(t, s, h17) || n == 0 || l <= 0 {
        lemma_scale_le_pow(n, l as nat, if n >= 1 {
            n
        } else {
            1
        });
    } else {
        lemma_draw_total(c, t, s, h17, l - 1, 10);
        assert(n * scale_den(n - 1, l - 1) == scale_den(n, l));
    }
}

/// The partial draw sums are non-negative and total `dsum(c, k)` times
/// the child scale.
pub proof fn lemma_draw_total(c: Seq<u32>, t: int, s: bool, h17: bool, l: int, k: int)
    requires
        c.len() == 10,
        0 <= l,
        0 <= k <= 10,
        dsum(c, 10) >= 1,
    ensures
        sum6(draw_outcomes(c, t, s, h17, l, k)) == dsum(c, k) * scale_den(dsum(c, 10) - 1, l),
        forall|i: int|
            0 <= i < 6 ==> 0 <= #[trigger] draw_outcomes(c, t, s, h17, l, k)[i] <= dsum(c, k)
                * scale_den(dsum(c, 10) - 1, l),
    decreases l, 1int, k,
{
    let n = dsum(c, 10);
    let sd = scale_den(n - 1, l);
    lemma_scale_le_pow(n - 1, l as nat, if n >= 2 {
        n - 1
    } else {
        1
    });
    lemma_dsum_nonneg(c, k);
    if k <= 0 {
        assert(dsum(c, k) * sd == 0) by (nonlinear_arith)
            requires
                dsum(c, k) == 0,
        ;
    } else {
        let r = k - 1;
        lemma_draw_total(c, t, s, h17, l, k - 1);
        lemma_dsum_nonneg(c, k - 1);
        if c[r] > 0 {
            let c2 = c.update(r, (c[r] - 1) as u32);
            let nx = add_card(t, s, r);
            lemma_dsum_update(c, r, (c[r] - 1) as u32, 10);
            assert(dsum(c2, 10) == n - 1);
            lemma_outcome_total(c2, nx.0, nx.1, h17, l);
            let child = dealer_outcome(c2, nx.0, nx.1, h17, l);
            let cr = c[r] as int;
            assert forall|i: int| 0 <= i < 6 implies 0 <= #[trigger] (cr * child[i]) <= cr
                * sd by {
                lemma_mul_nonnegative(cr, child[i]);
                lemma_mul_inequality(child[i], sd, cr);
                lemma_mul_is_commutative(cr, child[i]);
                lemma_mul_is_commutative(cr, sd);
            }
            assert(cr * child[0] + cr * child[1] + cr * child[2] + cr * child[3] + cr * child[4]
                + cr * child[5] == cr * sum6(child)) by (nonlinear_arith);
            assert(cr * sum6(child) == cr * sd);
            assert((dsum(c, k - 1)) * sd + cr * sd == dsum(c, k) * sd) by (nonlinear_arith)
                requires
                    dsum(c, k) == dsum(c, k - 1) + cr,
            ;
        }
    }
}

/// Copies a 10-entry count vector.
pub fn copy_counts(c: &Vec<u32>) -> (out: Vec<u32>)
    requires
        c@.len() == 10,
    ensures
        out@ == c@,
{
    let mut out: Vec<u32> = Vec::new();
    let mut i: usize = 0;
    while i < 10
        invariant
            0 <= i <= 10,
            c@.len() == 10,
            out@.len() == i,
            forall|j: int| 0 <= j < i ==> out@[j] == c@[j],
        decreases 10 - i,
    {
        out.push(c[i]);
        i = i + 1;
    }
    proof {
        assert(out@ =~= c@);
    }
    out
}

/// Recursive exact enumeration of the dealer runout. The deck is
/// mutated in place while exploring and restored before returning.
#[verifier::loop_isolation(false)]
fn dealer_dist_rec(c: &mut Vec<u32>, t: u32, s: bool, h17: bool, l: u32) -> (res: Vec<u128>)
    requires
        old(c)@.len() == 10,
        dsum(old(c)@, 10) <= 416,
        t <= 32,
        s ==> 11 <= t <= 21,
        l <= 13,
        l as int >= chain_bound(t as int, s),
    ensures
        final(c)@ == old(c)@,
        res@.len() == 6,
        forall|i: int|
            0 <= i < 6 ==> res@[i] as int == dealer_outcome(old(c)@, t as int, s, h17, l as int)[i],
    decreases l,
{
    proof {
        lemma_dsum_nonneg(c@, 10);
    }
    let n = crate::deck::deck_total(c);
    if t > 21 || t > 17 || (t == 17 && !(s && h17)) || n == 0 || l == 0 {
        let mut res: Vec<u128> = Vec::new();
        let bucket: usize = if t > 21 {
            5
        } else if t < 17 {
            0
        } else {
            (t - 17) as usize
        };
        let den = scale_den_exec(n as u32, l);
        let mut i: usize = 0;
        while i < 6
            invariant
                0 <= i <= 6,
                res@.len() == i,
                bucket == bucket_of(t as int),
                den as int == scale_den(n as int, l as int),
                forall|j: int|
                    0 <= j < i ==> res@[j] as int == one_hot6(
                        bucket_of(t as int),
                        scale_den(n as int, l as int),
                    )[j],
            decreases 6 - i,
        {
            if i == bucket {
                res.push(den);
            } else {
                res.push(0);
            }
            i = i + 1;
        }
        res
    } else {
        let ghost c0 = c@;
        let mut res: Vec<u128> = Vec::new();
        res.push(0);
        res.push(0);
        res.push(0);
        res.push(0);
        res.push(0);
        res.push(0);
        let mut r: usize = 0;
        while r < 10
            invariant
                c@ == c0,
                0 <= r <= 10,
                res@.len() == 6,
                forall|i: int|
                    0 <= i < 6 ==> res@[i] as int == draw_outcomes(
                        c0,
                        t as int,
                        s,
                        h17,
                        l as int - 1,
                        r as int,
                    )[i],
            decreases 10 - r,
        {
            let cr = c[r];
            if cr > 0 {
                proof {
                    lemma_chain_bound_step(t as int, s, r as int);
                    lemma_dsum_update(c@, r as int, (cr - 1) as u32, 10);
                    lemma_count_le_dsum(c0, r as int, 10);
                }
                c.set(r, cr - 1);
                let nx = add_to(t, s, r);
                let child = dealer_dist_rec(c, nx.0, crate::cards::value_soft(nx), h17, l - 1);
                let ghost dprev = draw_outcomes(c0, t as int, s, h17, l as int - 1, r as int);
                let ghost dnext = draw_outcomes(c0, t as int, s, h17, l as int - 1, r as int + 1);
                proof {
                    lemma_draw_total(c0, t as int, s, h17, l as int - 1, r as int + 1);
                    lemma_outcome_total(c@, nx.0 as int, nx.1, h17, l as int - 1);
                    lemma_partial_dsum_le(c0, r as int + 1, 10);
                    lemma_dsum_nonneg(c0, r as int);
                    lemma_scale_cap(dsum(c0, 10), l as nat);
                    let sd = scale_den(dsum(c0, 10) - 1, l as int - 1);
                    assert(dsum(c0, r as int + 1) * sd <= dsum(c0, 10) * sd) by {
                        lemma_mul_inequality(dsum(c0, r as int + 1), dsum(c0, 10), sd);
                        lemma_mul_is_commutative(dsum(c0, r as int + 1), sd);
                        lemma_mul_is_commutative(dsum(c0, 10), sd);
                    }
                    assert(dsum(c0, 10) * sd == scale_den(dsum(c0, 10), l as int));
                    assert(forall|j: int|
                        0 <= j < 6 ==> #[trigger] dnext[j] == dprev[j] + (cr as int) * child@[j]);
                    assert(forall|j: int|
                        0 <= j < 6 ==> 0 <= #[trigger] dnext[j]
                            <= 11174119155209583553590348738461696);
                }
                let mut i: usize = 0;
                while i < 6
                    invariant
                        0 <= i <= 6,
                        res@.len() == 6,
                        forall|j: int| i <= j < 6 ==> res@[j] as int == dprev[j],
                        forall|j: int| 0 <= j < i ==> res@[j] as int == dnext[j],
                    decreases 6 - i,
                {
                    proof {
                        lemma_mul_nonnegative(cr as int, child@[i as int] as int);
                    }
                    let add: u128 = (cr as u128) * child[i];
                    let prev = res[i];
                    res.set(i, prev + add);
                    i = i + 1;
                }
                c.set(r, cr);
                proof {
                    assert(c@ =~= c0);
                }
            }
            r = r + 1;
        }
        res
    }
}

/// Executable scale computation.
pub fn scale_den_exec(n: u32, l: u32) -> (d: u128)
    requires
        n <= 416,
        l <= 13,
    ensures
        d as int == scale_den(n as int, l as int),
        d >= 1,
    decreases l,
{
    if l == 0 {
        1
    } else {
        let f: u128 = if n >= 1 {
            n as u128
        } else {
            1
        };
        let rest = scale_den_exec(if n >= 1 {
            n - 1
        } else {
            0
        }, l - 1);
        proof {
            lemma_scale_cap(n as int - 1, (l - 1) as nat);
            lemma_scale_cap(n as int, l as nat);
            if n == 0 {
                assert(scale_den(-1, l as int - 1) == scale_den(0, l as int - 1)) by {
                    lemma_scale_shift_low(l as int - 1);
                }
            }
        }
        f * rest
    }
}

/// Below one card, the scale no longer depends on the (negative) count.
pub proof fn lemma_scale_shift_low(l: int)
    ensures
        scale_den(-1, l) == scale_den(0, l),
    decreases l,
{
    if l > 0 {
        lemma_scale_shift_low(l - 1);
        lemma_scale_low_any(-2, -1, l - 1);
    }
}

proof fn lemma_scale_low_any(a: int, b: int, l: int)
    requires
        a <= 0,
        b <= 0,
    ensures
        scale_den(a, l) == scale_den(b, l),
    decreases l,
{
    if l > 0 {
        lemma_scale_low_any(a - 1, b - 1, l - 1);
    }
}

/// Exact scaled dealer-outcome distribution from a running total.
///
/// Returns the six scaled outcome weights and their common scale; the
/// weights sum to exactly the scale (each divided by the scale is the
/// exact outcome probability), and the scale is positive even for an
/// empty deck, where the clamped one-hot fallback is returned.
pub fn distribution(total: u32, soft: bool, deck: &Vec<u32>, h17: bool) -> (res: (Vec<u128>, u128))
    requires
        deck@.len() == 10,
        dsum(deck@, 10) <= 416,
        total <= 32,
        soft ==> 11 <= total <= 21,
    ensures
        res.0@.len() == 6,
        res.1 as int == scale_den(dsum(deck@, 10), chain_bound(total as int, soft)),
        res.1 >= 1,
        forall|i: int|
            0 <= i < 6 ==> res.0@[i] as int == dealer_outcome(
                deck@,
                total as int,
                soft,
                h17,
                chain_bound(total as int, soft),
            )[i],
        sum6(dealer_outcome(deck@, total as int, soft, h17, chain_bound(total as int, soft)))
            == res.1 as int,
{
    let l = chain_bound_of(total, soft);
    let mut c = copy_counts(deck);
    let out = dealer_dist_rec(&mut c, total, soft, h17, l);
    let n = crate::deck::deck_total(&c);
    let den = scale_den_exec(n as u32, l);
    proof {
        lemma_outcome_total(deck@, total as int, soft, h17, l as int);
    }
    (out, den)
}

/// The scaled distribution over all admissible hole cards for a given
/// up-card, before the hole card is known: rank `h` is enumerated with
/// weight `count(h)` among the ranks the constraint code admits, the
/// two-card hand value is formed, and the runout distributions are
/// accumulated.
pub open spec fn cond_dist(c: Seq<u32>, up: int, h17: bool, hc: int, k: int) -> Seq<int>
    decreases k,
{
    if k <= 0 {
        zero6()
    } else {
        let rest = cond_dist(c, up, h17, hc, k - 1);
        let h = k - 1;
        if c[h] > 0 && hole_ok(hc, h) {
            let tc = two_card(up, h);
            let child = dealer_outcome(c.update(h, (c[h] - 1) as u32), tc.0, tc.1, h17, 11);
            add6(rest, scale6(c[h] as int, child))
        } else {
            rest
        }
    }
}

/// Scale of a conditioned distribution: admissible cards times the child
/// scale. Zero exactly when no admissible hole card remains.
pub open spec fn cond_den(c: Seq<u32>, hc: int) -> int {
    allowed_sum(c, hc, 10) * scale_den(dsum(c, 10) - 1, 11)
}

/// The conditioned distribution is non-negative and sums to its scale.
pub proof fn lemma_cond_total(c: Seq<u32>, up: int, h17: bool, hc: int, k: int)
    requires
        c.len() == 10,
        0 <= k <= 10,
        dsum(c, 10) >= 1,
    ensures
        sum6(cond_dist(c, up, h17, hc, k)) == allowed_sum(c, hc, k) * scale_den(
            dsum(c, 10) - 1,
            11,
        ),
        forall|i: int|
            0 <= i < 6 ==> 0 <= #[trigger] cond_dist(c, up, h17, hc, k)[i] <= allowed_sum(c, hc, k)
                * scale_den(dsum(c, 10) - 1, 11),
    decreases k,
{
    let n = dsum(c, 10);
    let sd = scale_den(n - 1, 11);
    lemma_scale_le_pow(n - 1, 11, if n >= 2 {
        n - 1
    } else {
        1
    });
    lemma_allowed_sum_nonneg(c, hc, k);
    if k <= 0 {
        assert(allowed_sum(c, hc, k) * sd == 0) by (nonlinear_arith)
            requires
                allowed_sum(c, hc, k) == 0,
        ;
    } else {
        let h = k - 1;
        lemma_cond_total(c, up, h17, hc, k - 1);
        lemma_allowed_sum_nonneg(c, hc, k - 1);
        if c[h] > 0 && hole_ok(hc, h) {
            let c2 = c.update(h, (c[h] - 1) as u32);
            let tc = two_card(up, h);
            lemma_dsum_update(c, h, (c[h] - 1) as u32, 10);
            lemma_outcome_total(c2, tc.0, tc.1, h17, 11);
            let child = dealer_outcome(c2, tc.0, tc.1, h17, 11);
            let ch = c[h] as int;
            assert(sum6(child) == scale_den(n - 1, 11));
            assert forall|i: int| 0 <= i < 6 implies 0 <= #[trigger] (ch * child[i]) <= ch
                * sd by {
                lemma_mul_nonnegative(ch, child[i]);
                lemma_mul_inequality(child[i], sd, ch);
                lemma_mul_is_commutative(ch, child[i]);
                lemma_mul_is_commutative(ch, sd);
            }
            assert(ch * child[0] + ch * child[1] + ch * child[2] + ch * child[3] + ch * child[4]
                + ch * child[5] == ch * sum6(child)) by (nonlinear_arith);
            assert((allowed_sum(c, hc, k - 1)) * sd + ch * sd == allowed_sum(c, hc, k) * sd)
                by (nonlinear_arith)
                requires
                    allowed_sum(c, hc, k) == allowed_sum(c, hc, k - 1) + ch,
            ;
        }
    }
}

/// Dealer-outcome distribution for an up-card whose hole card is not
/// yet known, conditioned on the peek knowledge in `hc`: the six scaled
/// outcome weights over `cond_den` as their common scale. The scale is
/// zero exactly when no admissible hole card remains, in which case all
/// weights are zero.
#[verifier::loop_isolation(false)]
pub fn distribution_given_upcard(up: usize, deck: &Vec<u32>, h17: bool, hc: i32) -> (res: (
    Vec<u128>,
    u128,
))
    requires
        deck@.len() == 10,
        dsum(deck@, 10) <= 416,
        up < 10,
    ensures
        res.0@.len() == 6,
        res.1 as int == cond_den(deck@, hc as int),
        forall|i: int|
            0 <= i < 6 ==> res.0@[i] as int == cond_dist(deck@, up as int, h17, hc as int, 10)[i],
        sum6(cond_dist(deck@, up as int, h17, hc as int, 10)) == res.1 as int,
{
    proof {
        lemma_dsum_nonneg(deck@, 10);
    }
    let n64 = crate::deck::deck_total(deck);
    if n64 == 0 {
        proof {
            lemma_cond_empty(deck@, up as int, h17, hc as int, 10);
            assert(allowed_sum(deck@, hc as int, 10) == 0) by {
                lemma_allowed_le_dsum(deck@, hc as int, 10);
                lemma_allowed_sum_nonneg(deck@, hc as int, 10);
            }
            assert(cond_den(deck@, hc as int) == 0) by (nonlinear_arith)
                requires
                    allowed_sum(deck@, hc as int, 10) == 0,
                    cond_den(deck@, hc as int) == allowed_sum(deck@, hc as int, 10) * scale_den(
                        dsum(deck@, 10) - 1,
                        11,
                    ),
            ;
        }
        let mut res: Vec<u128> = Vec::new();
        let mut i: usize = 0;
        while i < 6
            invariant
                0 <= i <= 6,
                res@.len() == i,
                forall|j: int| 0 <= j < i ==> res@[j] == 0,
            decreases 6 - i,
        {
            res.push(0);
            i = i + 1;
        }
        return (res, 0);
    }
    let ghost c0 = deck@;
    let mut c = copy_counts(deck);
    let mut res: Vec<u128> = Vec::new();
    res.push(0);
    res.push(0);
    res.push(0);
    res.push(0);
    res.push(0);
    res.push(0);
    let mut a: u64 = 0;
    let mut h: usize = 0;
    while h < 10
        invariant
            c@ == c0,
            h <= 10,
            res@.len() == 6,
            a as int == allowed_sum(c0, hc as int, h as int),
            forall|i: int|
                0 <= i < 6 ==> res@[i] as int == cond_dist(c0, up as int, h17, hc as int, h as int)[i],
        decreases 10 - h,
    {
        let ch = c[h];
        let allowed = crate::cards::hole_allowed(hc, h);
        if ch > 0 && allowed {
            proof {
                lemma_two_card_props(up as int, h as int);
                lemma_dsum_update(c@, h as int, (ch - 1) as u32, 10);
                lemma_count_le_dsum(c0, h as int, 10);
            }
            c.set(h, ch - 1);
            let first = add_to(0, false, up);
            let tc = add_to(first.0, crate::cards::value_soft(first), h);
            let ghost tcs = two_card(up as int, h as int);
            let child = dealer_dist_rec(&mut c, tc.0, crate::cards::value_soft(tc), h17, 11);
            let ghost dprev = cond_dist(c0, up as int, h17, hc as int, h as int);
            let ghost dnext = cond_dist(c0, up as int, h17, hc as int, h as int + 1);
            proof {
                lemma_cond_total(c0, up as int, h17, hc as int, h as int + 1);
                lemma_outcome_total(c@, tcs.0, tcs.1, h17, 11);
                lemma_allowed_le_dsum(c0, hc as int, 10);
                lemma_allowed_sum_nonneg(c0, hc as int, h as int);
                lemma_scale_cap(dsum(c0, 10) - 1, 11);
                let sd = scale_den(dsum(c0, 10) - 1, 11);
                let af = allowed_sum(c0, hc as int, h as int + 1);
                assert(af * sd <= 416 * sd) by {
                    lemma_allowed_partial_le(c0, hc as int, h as int + 1, 10);
                    lemma_dsum_nonneg(c0, 10);
                    lemma_mul_inequality(af, 416, sd);
                    lemma_mul_is_commutative(af, sd);
                    lemma_mul_is_commutative(416, sd);
                }
                assert(416 * sd <= 416 * 11174119155209583553590348738461696) by {
                    lemma_mul_inequality(sd, 11174119155209583553590348738461696, 416);
                    lemma_mul_is_commutative(416, sd);
                    lemma_mul_is_commutative(416, 11174119155209583553590348738461696);
                }
                assert(forall|j: int|
                    0 <= j < 6 ==> #[trigger] dnext[j] == dprev[j] + (ch as int) * child@[j]);
                assert(forall|j: int| 0 <= j < 6 ==> 0 <= #[trigger] dnext[j] <= af * sd);
            }
            let mut i: usize = 0;
            while i < 6
                invariant
                    0 <= i <= 6,
                    res@.len() == 6,
                    forall|j: int| i <= j < 6 ==> res@[j] as int == dprev[j],
                    forall|j: int| 0 <= j < i ==> res@[j] as int == dnext[j],
                decreases 6 - i,
            {
                proof {
                    lemma_mul_nonnegative(ch as int, child@[i as int] as int);
                }
                let add: u128 = (ch as u128) * child[i];
                let prev = res[i];
                res.set(i, prev + add);
                i = i + 1;
            }
            c.set(h, ch);
            proof {
                assert(c@ =~= c0);
                lemma_allowed_partial_le(c0, hc as int, h as int + 1, 10);
                lemma_allowed_le_dsum(c0, hc as int, 10);
            }
            a = a + (ch as u64);
        }
        h = h + 1;
    }
    let den_child = scale_den_exec(deck_total_u32(&c) - 1, 11);
    proof {
        lemma_scale_cap(dsum(c0, 10) - 1, 11);
        lemma_allowed_le_dsum(c0, hc as int, 10);
        lemma_allowed_sum_nonneg(c0, hc as int, 10);
        lemma_dsum_nonneg(c0, 10);
        lemma_mul_upper_bound(a as int, 416, den_child as int, 11174119155209583553590348738461696);
        lemma_cond_total(c0, up as int, h17, hc as int, 10);
    }
    let den: u128 = (a as u128) * den_child;
    (res, den)
}

/// Executable deck total as `u32` (the sum fits: decks hold at most 416
/// cards).
pub fn deck_total_u32(c: &Vec<u32>) -> (n: u32)
    requires
        c@.len() == 10,
        dsum(c@, 10) <= 416,
        dsum(c@, 10) >= 1,
    ensures
        n as int == dsum(c@, 10),
        1 <= n <= 416,
{
    let t = crate::deck::deck_total(c);
    proof {
        lemma_dsum_nonneg(c@, 10);
    }
    t as u32
}

/// Partial admissible sums grow towards the full admissible sum.
pub proof fn lemma_allowed_partial_le(c: Seq<u32>, hc: int, k: int, m: int)
    requires
        0 <= k <= m,
    ensures
        allowed_sum(c, hc, k) <= allowed_sum(c, hc, m),
    decreases m - k,
{
    if k < m {
        lemma_allowed_partial_le(c, hc, k + 1, m);
    }
}

/// Over an empty deck no hole card can be enumerated.
proof fn lemma_cond_empty(c: Seq<u32>, up: int, h17: bool, hc: int, k: int)
    requires
        c.len() == 10,
        dsum(c, 10) == 0,
        0 <= k <= 10,
    ensures
        forall|i: int| 0 <= i < 6 ==> #[trigger] cond_dist(c, up, h17, hc, k)[i] == 0,
    decreases k,
{
    assert(forall|i: int| 0 <= i < 6 ==> zero6()[i] == 0);
    if k > 0 {
        lemma_cond_empty(c, up, h17, hc, k - 1);
        lemma_count_le_dsum(c, k - 1, 10);
        lemma_dsum_nonneg(c, k - 1);
        assert(c[k - 1] == 0);
        assert(cond_dist(c, up, h17, hc, k) == cond_dist(c, up, h17, hc, k - 1));
    }
}

} // verus!
