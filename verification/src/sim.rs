//! Shoe-backed hand simulator driven by the analytic decision solver.
//!
//! One `BlackjackSimulator` instance owns one authoritative shoe, a
//! deterministic random stream, and the running statistics; nothing is
//! shared between instances. Expected-value queries operate on frozen
//! deck snapshots and never touch the shoe; only the simulation loop
//! draws from it.

use vstd::prelude::*;
use crate::cards::{
    add_card,
    chain_bound,
    dealer_stands,
    hand_value,
    rank_value,
    HOLE_ANY,
    HOLE_NOT_ACE,
    HOLE_NOT_TEN,
};
use crate::deck::{allowed_sum, dsum, DeckState};
use crate::dealer::{cond_den, cond_dist, scale_den};
use crate::ev::{
    child_stand_lift,
    double_ev_q,
    hit_then_stand_ev_q,
    hit_value,
    max1,
    split_ev_q,
    split_value,
    stand_ev_q,
    stand_value,
    EvRatio,
};

verus! {

/// Immutable table-rule configuration.
#[derive(Clone, Copy, PartialEq, Eq, Structural)]
pub struct Ruleset {
    /// Number of 52-card decks in the shoe, 1 through 8.
    pub num_decks: u32,
    /// Whether the dealer hits a soft 17.
    pub dealer_hits_soft_17: bool,
    /// Blackjack payout as an exact fraction, e.g. 3 over 2.
    pub payout_num: u32,
    pub payout_den: u32,
    /// Whether doubling is allowed on the two-card hands made by a split.
    pub double_after_split: bool,
    /// How many splits one original hand may make.
    pub max_splits: u32,
    /// Fraction of the shoe dealt before a forced reshuffle, as an exact
    /// fraction in (0, 1].
    pub pen_num: u32,
    pub pen_den: u32,
    /// Split aces receive one card each and must stand.
    pub split_aces_stand_only: bool,
    /// Configured hit-chain lookahead depths (decision and doubling).
    /// The solver evaluates a deliberate one-card approximation — a hit
    /// is valued as one card followed by a stand — trading exactness
    /// beyond that depth for tractability.
    pub dp_depth: u32,
    pub dp_depth_dbl: u32,
}

impl Ruleset {
    /// A configuration the constructor accepts.
    pub open spec fn valid(&self) -> bool {
        &&& 1 <= self.num_decks <= 8
        &&& 1 <= self.pen_num <= self.pen_den
        &&& 1 <= self.payout_den
    }

    /// The hit-chain lookahead depth the engine effectively evaluates:
    /// one, whatever `dp_depth` and `dp_depth_dbl` request. Every hit
    /// and doubling value in this crate is the depth-one instance of
    /// the bounded lookahead — one card, then stand — so the analytic
    /// results do not vary with the requested depths.
    pub open spec fn effective_hit_depth(&self) -> int {
        1
    }
}

/// Why a construction attempt was rejected.
#[derive(Clone, Copy, PartialEq, Eq, Structural, Debug)]
pub enum ConfigError {
    /// The deck count is zero or above eight.
    BadDecks,
    /// The penetration fraction is outside (0, 1].
    BadPenetration,
    /// The payout fraction has a zero denominator.
    BadPayout,
    /// The starting shoe is not a valid composition for the deck count.
    BadShoe,
}

/// Running accumulators, monotonically updated, never reset except by
/// a reshuffle (which touches only the reshuffle counter).
#[derive(Clone, Copy, PartialEq, Eq, Structural, Debug)]
pub struct Stats {
    pub hands_played: u64,
    pub reshuffles: u64,
    pub stand_actions: u64,
    pub hit_actions: u64,
    pub double_actions: u64,
    pub split_actions: u64,
    /// Profit and loss in units of one over the payout denominator.
    pub pnl_num: i64,
    /// Total stake placed, in whole units.
    pub wagered: u64,
}

pub open spec fn zero_stats() -> Stats {
    Stats {
        hands_played: 0,
        reshuffles: 0,
        stand_actions: 0,
        hit_actions: 0,
        double_actions: 0,
        split_actions: 0,
        pnl_num: 0,
        wagered: 0,
    }
}

/// A player action chosen by the solver.
#[derive(Clone, Copy, PartialEq, Eq, Structural, Debug)]
pub enum Action {
    Stand,
    Hit,
    DoubleDown,
}

/// Result of one simulated hand, with a ghost record of the deal that
/// produced it.
#[derive(Clone, Copy)]
pub struct HandOutcome {
    /// Signed profit in units of one over `pnl_den`.
    pub pnl_num: i64,
    pub pnl_den: u64,
    /// Stake placed across all hands of this deal, in whole units.
    pub wagered: u64,
    /// The settled player hands as (final total, stake) pairs. A deal
    /// ended by a dealer natural records the single original hand,
    /// settled against dealer total 21; a winning player natural
    /// records no comparison hands.
    pub settled: Ghost<Seq<(u32, u32)>>,
    /// The dealer's final total the hands settled against.
    pub dealer_total: Ghost<u32>,
    /// Whether the deal was a winning player natural, paid at the
    /// configured multiplier.
    pub player_natural: Ghost<bool>,
    /// How many cards left the shoe during this deal.
    pub cards_dealt: Ghost<int>,
}

/// One cached conditioned dealer distribution, keyed by the exact deck
/// composition, the up-card and the hole constraint.
pub struct DealerMemoEntry {
    pub deck: Vec<u32>,
    pub up: usize,
    pub hc: i32,
    pub dist: Vec<u128>,
    pub den: u128,
}

/// A cached entry is correct: it stores exactly the conditioned
/// distribution of its own key under the instance's soft-17 rule.
pub open spec fn dealer_entry_ok(e: DealerMemoEntry, h17: bool) -> bool {
    &&& e.deck@.len() == 10
    &&& dsum(e.deck@, 10) <= 416
    &&& e.up < 10
    &&& e.dist@.len() == 6
    &&& e.den as int == cond_den(e.deck@, e.hc as int)
    &&& forall|i: int|
        0 <= i < 6 ==> e.dist@[i] as int == cond_dist(e.deck@, e.up as int, h17, e.hc as int, 10)[i]
}

/// One cached decision, keyed by the exact deck composition, the hand
/// value, the up-card, the hole constraint and the doubling right.
pub struct DecisionMemoEntry {
    pub deck: Vec<u32>,
    pub total: u32,
    pub soft: bool,
    pub up: usize,
    pub hc: i32,
    pub can_double: bool,
    pub act: Action,
}

/// A cached decision is correct: it stores exactly the action the
/// solver chooses for its own key under the instance's soft-17 rule.
pub open spec fn decision_entry_ok(e: DecisionMemoEntry, h17: bool) -> bool {
    &&& e.deck@.len() == 10
    &&& e.act == decide_spec(
        e.deck@,
        e.total as int,
        e.soft,
        e.up as int,
        h17,
        e.hc as int,
        e.can_double,
    )
}

/// Element-wise equality of two count vectors.
fn vecs_equal(a: &Vec<u32>, b: &Vec<u32>) -> (r: bool)
    ensures
        r <==> a@ == b@,
{
    if a.len() != b.len() {
        return false;
    }
    let mut i: usize = 0;
    while i < a.len()
        invariant
            i <= a@.len(),
            a@.len() == b@.len(),
            forall|j: int| 0 <= j < i ==> a@[j] == b@[j],
        decreases a@.len() - i,
    {
        if a[i] != b[i] {
            return false;
        }
        i = i + 1;
    }
    proof {
        assert(a@ =~= b@);
    }
    true
}

/// Copies a six-entry distribution vector.
fn copy_dist(d: &Vec<u128>) -> (out: Vec<u128>)
    requires
        d@.len() == 6,
    ensures
        out@ == d@,
{
    let mut out: Vec<u128> = Vec::new();
    let mut i: usize = 0;
    while i < 6
        invariant
            i <= 6,
            d@.len() == 6,
            out@.len() == i,
            forall|j: int| 0 <= j < i ==> out@[j] == d@[j],
        decreases 6 - i,
    {
        out.push(d[i]);
        i = i + 1;
    }
    proof {
        assert(out@ =~= d@);
    }
    out
}

/// The composition-dependent analytic engine with its simulator state.
pub struct BlackjackSimulator {
    pub rules: Ruleset,
    pub shoe: DeckState,
    pub rng: u64,
    pub stats: Stats,
    /// Dealer-distribution memo, invalidated on every reshuffle.
    pub dealer_memo: Vec<DealerMemoEntry>,
    /// Decision memo, invalidated on every reshuffle.
    pub decision_memo: Vec<DecisionMemoEntry>,
}

/// One step of the xorshift64 stream: deterministic, never zero.
pub open spec fn rng_step(x: u64) -> u64 {
    let a = (x ^ (x << 13)) as u64;
    let b = (a ^ (a >> 7)) as u64;
    (b ^ (b << 17)) as u64
}

/// Outcome of one final player hand against the final dealer total: a
/// busted player loses the stake outright; otherwise the player wins
/// when the dealer busts or is outdrawn, loses when outdrawn, and
/// pushes a tie.
pub open spec fn settle_outcome(pt: int, dt: int) -> int {
    if pt > 21 {
        -1
    } else if dt > 21 {
        1
    } else if pt > dt {
        1
    } else if pt < dt {
        -1
    } else {
        0
    }
}

pub fn settle_hand(pt: u32, dt: u32) -> (v: i32)
    ensures
        v as int == settle_outcome(pt as int, dt as int),
        -1 <= v <= 1,
{
    if pt > 21 {
        -1
    } else if dt > 21 {
        1
    } else if pt > dt {
        1
    } else if pt < dt {
        -1
    } else {
        0
    }
}

/// Fixed basic-strategy pair-splitting table, keyed on the pair rank
/// and the dealer up-card. Aces and eights always split; fives and
/// tens never; the rest follow the standard chart.
pub open spec fn pair_split_rule(pair: int, up: int) -> bool {
    let uv = rank_value(up);
    if pair == 0 || pair == 7 {
        true
    } else if pair == 4 || pair == 9 {
        false
    } else if pair == 1 || pair == 2 || pair == 6 {
        2 <= uv <= 7
    } else if pair == 3 {
        uv == 5 || uv == 6
    } else if pair == 5 {
        2 <= uv <= 6
    } else {
        uv != 7 && uv != 10 && uv != 11
    }
}

pub fn should_split_pair(pair: usize, up: usize) -> (b: bool)
    requires
        pair < 10,
        up < 10,
    ensures
        b == pair_split_rule(pair as int, up as int),
{
    let uv = crate::cards::rank_val(up);
    if pair == 0 || pair == 7 {
        true
    } else if pair == 4 || pair == 9 {
        false
    } else if pair == 1 || pair == 2 || pair == 6 {
        2 <= uv && uv <= 7
    } else if pair == 3 {
        uv == 5 || uv == 6
    } else if pair == 5 {
        2 <= uv && uv <= 6
    } else {
        uv != 7 && uv != 10 && uv != 11
    }
}

/// Whether a supplied starting shoe is acceptable: empty asks for a
/// full shoe, anything else must be ten buckets holding no more cards
/// than the configured decks.
pub open spec fn shoe_counts_ok(shoe_counts: Seq<u32>, num_decks: int) -> bool {
    shoe_counts.len() == 0 || (shoe_counts.len() == 10 && dsum(shoe_counts, 10) <= 52
        * num_decks)
}

/// The rank whose cumulative count range contains index `k`, scanning
/// from rank `r`: drawing maps a uniform index over the undealt cards
/// to the rank bucket it falls in.
pub open spec fn rank_at(c: Seq<u32>, k: int, r: int) -> int
    decreases 10 - r,
{
    if r >= 9 {
        9
    } else if k < c[r] {
        r
    } else {
        rank_at(c, k - c[r], r + 1)
    }
}

/// Hand value reached by drawing the listed ranks in order.
pub open spec fn apply_cards(t: int, s: bool, cards: Seq<int>) -> (int, bool)
    decreases cards.len(),
{
    if cards.len() == 0 {
        (t, s)
    } else {
        let st = add_card(t, s, cards[0]);
        apply_cards(st.0, st.1, cards.drop_first())
    }
}

/// Appending one draw to a runout applies it last.
pub proof fn lemma_apply_snoc(t: int, s: bool, cards: Seq<int>, r: int)
    ensures
        apply_cards(t, s, cards.push(r)) == ({
            let st = apply_cards(t, s, cards);
            add_card(st.0, st.1, r)
        }),
    decreases cards.len(),
{
    let snoc = cards.push(r);
    assert(snoc.len() == cards.len() + 1);
    if cards.len() == 0 {
        assert(snoc[0] == r);
        assert(snoc.drop_first() =~= Seq::<int>::empty());
        let st = add_card(t, s, r);
        assert(apply_cards(t, s, snoc) == apply_cards(st.0, st.1, snoc.drop_first()));
        assert(apply_cards(st.0, st.1, snoc.drop_first()) == (st.0, st.1));
        assert(apply_cards(t, s, cards) == (t, s));
    } else {
        let st = add_card(t, s, cards[0]);
        lemma_apply_snoc(st.0, st.1, cards.drop_first(), r);
        assert(snoc[0] == cards[0]);
        assert(snoc.drop_first() =~= cards.drop_first().push(r));
        assert(apply_cards(t, s, snoc) == apply_cards(st.0, st.1, snoc.drop_first()));
        assert(apply_cards(t, s, cards) == apply_cards(st.0, st.1, cards.drop_first()));
    }
}

/// Exact settled profit of the first `k` (total, stake) hands against
/// dealer total `dt`, in units of one over the payout denominator `pd`.
pub open spec fn settle_sum(hs: Seq<(u32, u32)>, dt: int, pd: int, k: int) -> int
    decreases k,
{
    if k <= 0 {
        0
    } else {
        settle_sum(hs, dt, pd, k - 1) + settle_outcome(hs[k - 1].0 as int, dt) * (hs[k - 1].1
            * pd)
    }
}

/// Total stake of the first `k` settled hands.
pub open spec fn stake_sum(hs: Seq<(u32, u32)>, k: int) -> int
    decreases k,
{
    if k <= 0 {
        0
    } else {
        stake_sum(hs, k - 1) + hs[k - 1].1
    }
}

/// With unit and doubled stakes only, the settled profit stays within
/// plus or minus the payout denominator times the stake placed.
pub proof fn lemma_settle_sum_bounds(hs: Seq<(u32, u32)>, dt: int, pd: int, k: int)
    requires
        0 <= k <= hs.len(),
        0 <= pd,
        forall|i: int| 0 <= i < hs.len() ==> ((#[trigger] hs[i].1) == 1 || hs[i].1 == 2),
    ensures
        k <= stake_sum(hs, k) <= 2 * k,
        -(pd * stake_sum(hs, k)) <= settle_sum(hs, dt, pd, k) <= pd * stake_sum(hs, k),
    decreases k,
{
    if k > 0 {
        lemma_settle_sum_bounds(hs, dt, pd, k - 1);
        let st = hs[k - 1].1 as int;
        let v = settle_outcome(hs[k - 1].0 as int, dt);
        crate::ev::lemma_pm1_mul(v, st * pd);
        assert(st * pd >= 0) by (nonlinear_arith)
            requires
                st >= 0,
                pd >= 0,
        ;
        assert(pd * stake_sum(hs, k) == pd * stake_sum(hs, k - 1) + st * pd) by (nonlinear_arith)
            requires
                stake_sum(hs, k) == stake_sum(hs, k - 1) + st,
        ;
    }
}

/// The reshuffle trigger: the remaining shoe has fallen below the
/// unpenetrated fraction of its configured size, or holds fewer than
/// the four cards a fresh deal needs (a defensive floor).
pub open spec fn needs_reshuffle(rules: Ruleset, shoe: Seq<u32>) -> bool {
    let remaining = dsum(shoe, 10);
    let initial = 52 * rules.num_decks;
    remaining * rules.pen_den < initial * (rules.pen_den - rules.pen_num) || remaining < 4
}

impl BlackjackSimulator {
    /// The instance invariant: valid rules and a shoe that is a
    /// sub-composition of the configured number of decks.
    pub open spec fn wf(&self) -> bool {
        &&& self.rules.valid()
        &&& self.shoe.wf()
        &&& dsum(self.shoe.counts@, 10) <= 52 * self.rules.num_decks
        &&& forall|i: int|
            0 <= i < self.dealer_memo@.len() ==> dealer_entry_ok(
                #[trigger] self.dealer_memo@[i],
                self.rules.dealer_hits_soft_17,
            )
        &&& forall|i: int|
            0 <= i < self.decision_memo@.len() ==> decision_entry_ok(
                #[trigger] self.decision_memo@[i],
                self.rules.dealer_hits_soft_17,
            )
    }

    /// Builds a simulator, rejecting invalid configuration: a deck
    /// count outside 1..=8, a penetration fraction outside (0, 1], a
    /// zero payout denominator, or a starting shoe that is not a
    /// sub-composition of the configured decks. An empty `shoe_counts`
    /// asks for a full, freshly shuffled shoe.
    pub fn new(shoe_counts: Vec<u32>, rules: Ruleset, seed: u64) -> (res: Result<
        BlackjackSimulator,
        ConfigError,
    >)
        ensures
            res == Result::<BlackjackSimulator, ConfigError>::Err(ConfigError::BadDecks)
                <==> !(1 <= rules.num_decks <= 8),
            res == Result::<BlackjackSimulator, ConfigError>::Err(ConfigError::BadPenetration)
                <==> (1 <= rules.num_decks <= 8 && !(1 <= rules.pen_num <= rules.pen_den)),
            res == Result::<BlackjackSimulator, ConfigError>::Err(ConfigError::BadPayout) <==> (1
                <= rules.num_decks <= 8 && 1 <= rules.pen_num <= rules.pen_den
                && rules.payout_den < 1),
            res == Result::<BlackjackSimulator, ConfigError>::Err(ConfigError::BadShoe) <==> (
            rules.valid() && !shoe_counts_ok(shoe_counts@, rules.num_decks as int)),
            res is Ok <==> (rules.valid() && shoe_counts_ok(
                shoe_counts@,
                rules.num_decks as int,
            )),
            res is Ok ==> ({
                let sim = res->Ok_0;
                &&& sim.wf()
                &&& sim.rules == rules
                &&& sim.stats == zero_stats()
                &&& sim.dealer_memo@.len() == 0
                &&& sim.decision_memo@.len() == 0
                &&& (shoe_counts@.len() == 0 ==> dsum(sim.shoe.counts@, 10) == 52
                    * rules.num_decks)
                &&& (shoe_counts@.len() != 0 ==> sim.shoe.counts@ == shoe_counts@)
            }),
    {
        if rules.num_decks < 1 || rules.num_decks > 8 {
            return Result::Err(ConfigError::BadDecks);
        }
        if rules.pen_num < 1 || rules.pen_den < 1 || rules.pen_num > rules.pen_den {
            return Result::Err(ConfigError::BadPenetration);
        }
        if rules.payout_den < 1 {
            return Result::Err(ConfigError::BadPayout);
        }
        let shoe: DeckState = if shoe_counts.len() == 0 {
            DeckState::full_shoe(rules.num_decks)
        } else {
            if shoe_counts.len() != 10 {
                return Result::Err(ConfigError::BadShoe);
            }
            let given = DeckState { counts: shoe_counts };
            let total = crate::deck::deck_total_any(&given.counts);
            if total > 52 * (rules.num_decks as u64) {
                return Result::Err(ConfigError::BadShoe);
            }
            given
        };
        let rng = if seed == 0 {
            0x9e3779b97f4a7c15u64
        } else {
            seed
        };
        let stats = Stats {
            hands_played: 0,
            reshuffles: 0,
            stand_actions: 0,
            hit_actions: 0,
            double_actions: 0,
            split_actions: 0,
            pnl_num: 0,
            wagered: 0,
        };
        Result::Ok(
            BlackjackSimulator {
                rules,
                shoe,
                rng,
                stats,
                dealer_memo: Vec::new(),
                decision_memo: Vec::new(),
            },
        )
    }

    /// Advances the deterministic random stream.
    fn next_rand(&mut self) -> (x: u64)
        ensures
            final(self).rng == rng_step(old(self).rng),
            x == final(self).rng,
            final(self).rules == old(self).rules,
            final(self).shoe == old(self).shoe,
            final(self).stats == old(self).stats,
            final(self).dealer_memo@ == old(self).dealer_memo@,
            final(self).decision_memo@ == old(self).decision_memo@,
    {
        let mut x = self.rng;
        x = x ^ (x << 13);
        x = x ^ (x >> 7);
        x = x ^ (x << 17);
        self.rng = x;
        x
    }

    /// Draws one card from the authoritative shoe: the random stream
    /// advances one step, the next index over the undealt cards is
    /// taken modulo their number, and the card at that index leaves the
    /// shoe. The drawn rank is pinned as the bucket whose cumulative
    /// count range contains the index, so a run is reproducible from
    /// its seed; whatever the stream yields, that rank had a positive
    /// count.
    fn draw(&mut self) -> (r: usize)
        requires
            old(self).wf(),
            dsum(old(self).shoe.counts@, 10) >= 1,
        ensures
            final(self).wf(),
            r < 10,
            final(self).rng == rng_step(old(self).rng),
            r as int == rank_at(
                old(self).shoe.counts@,
                (rng_step(old(self).rng) as int) % dsum(old(self).shoe.counts@, 10),
                0,
            ),
            old(self).shoe.counts@[r as int] > 0,
            final(self).shoe.counts@ == old(self).shoe.counts@.update(
                r as int,
                (old(self).shoe.counts@[r as int] - 1) as u32,
            ),
            dsum(final(self).shoe.counts@, 10) == dsum(old(self).shoe.counts@, 10) - 1,
            final(self).rules == old(self).rules,
            final(self).stats == old(self).stats,
    {
        let n = self.shoe.remaining();
        let x = self.next_rand();
        let mut k = x % n;
        let ghost k0 = k as int;
        let mut r: usize = 0;
        loop
            invariant
                self.wf(),
                r < 10,
                k as int + dsum(self.shoe.counts@, r as int) < dsum(self.shoe.counts@, 10),
                rank_at(self.shoe.counts@, k0, 0) == rank_at(self.shoe.counts@, k as int, r as int),
                k0 == (rng_step(old(self).rng) as int) % dsum(old(self).shoe.counts@, 10),
                self.rng == rng_step(old(self).rng),
                self.rules == old(self).rules,
                self.stats == old(self).stats,
                self.shoe == old(self).shoe,
            decreases 10 - r,
        {
            let c = self.shoe.count_of(r);
            if k < (c as u64) {
                proof {
                    assert(rank_at(self.shoe.counts@, k as int, r as int) == r as int);
                }
                self.shoe.remove(r);
                return r;
            }
            proof {
                if r as int + 1 == 10 {
                    crate::deck::lemma_partial_dsum_le(self.shoe.counts@, 10, 10);
                    assert(false);
                }
            }
            k = k - (c as u64);
            r = r + 1;
        }
    }

    /// Replaces the shoe with a fresh full composition and bumps the
    /// reshuffle counter exactly when the penetration threshold has
    /// been crossed; otherwise changes nothing. After a triggered
    /// reshuffle the shoe equals the configured full composition
    /// exactly.
    pub fn maybe_reshuffle(&mut self)
        requires
            old(self).wf(),
        ensures
            final(self).wf(),
            final(self).rules == old(self).rules,
            final(self).rng == old(self).rng,
            if needs_reshuffle(old(self).rules, old(self).shoe.counts@) {
                &&& dsum(final(self).shoe.counts@, 10) == 52 * old(self).rules.num_decks
                &&& (forall|i: int|
                    0 <= i < 9 ==> final(self).shoe.counts@[i] == 4 * old(self).rules.num_decks)
                &&& final(self).shoe.counts@[9] == 16 * old(self).rules.num_decks
                &&& final(self).stats.reshuffles == (if old(self).stats.reshuffles < u64::MAX {
                    old(self).stats.reshuffles + 1
                } else {
                    u64::MAX as int
                })
                &&& final(self).stats.hands_played == old(self).stats.hands_played
                &&& final(self).stats.pnl_num == old(self).stats.pnl_num
                &&& final(self).stats.wagered == old(self).stats.wagered
                &&& final(self).stats.stand_actions == old(self).stats.stand_actions
                &&& final(self).stats.hit_actions == old(self).stats.hit_actions
                &&& final(self).stats.double_actions == old(self).stats.double_actions
                &&& final(self).stats.split_actions == old(self).stats.split_actions
                &&& final(self).dealer_memo@.len() == 0
                &&& final(self).decision_memo@.len() == 0
            } else {
                &&& final(self).shoe == old(self).shoe
                &&& final(self).stats == old(self).stats
                &&& final(self).dealer_memo@ == old(self).dealer_memo@
                &&& final(self).decision_memo@ == old(self).decision_memo@
            },
    {
        let remaining = self.shoe.remaining();
        let initial: u64 = 52 * (self.rules.num_decks as u64);
        proof {
            crate::deck::lemma_dsum_nonneg(self.shoe.counts@, 10);
            assert((remaining as int) * (self.rules.pen_den as int) <= 416 * 0xffffffff)
                by (nonlinear_arith)
                requires
                    0 <= remaining as int <= 416,
                    0 <= self.rules.pen_den as int <= 0xffffffff,
            ;
            assert((initial as int) * ((self.rules.pen_den - self.rules.pen_num) as int) <= 416
                * 0xffffffff) by (nonlinear_arith)
                requires
                    0 <= initial as int <= 416,
                    0 <= (self.rules.pen_den - self.rules.pen_num) as int <= 0xffffffff,
            ;
        }
        let lhs: u64 = remaining * (self.rules.pen_den as u64);
        let rhs: u64 = initial * ((self.rules.pen_den - self.rules.pen_num) as u64);
        if lhs < rhs || remaining < 4 {
            self.shoe = DeckState::full_shoe(self.rules.num_decks);
            self.dealer_memo = Vec::new();
            self.decision_memo = Vec::new();
            if self.stats.reshuffles < u64::MAX {
                self.stats.reshuffles = self.stats.reshuffles + 1;
            }
        }
    }

    /// A frozen snapshot of the remaining shoe, for solver queries.
    pub fn solver_deck(&self) -> (c: Vec<u32>)
        requires
            self.wf(),
        ensures
            c@ == self.shoe.counts@,
    {
        self.shoe.snapshot()
    }

    /// Read access to the running statistics.
    pub fn get_stats(&self) -> (s: Stats)
        ensures
            s == self.stats,
    {
        self.stats
    }

    /// Exact stand expected value over a supplied deck snapshot; the
    /// shoe is untouched. The softness flag is accepted for interface
    /// completeness: once standing, only the total matters.
    pub fn stand_ev(&self, pt_total: u32, pt_soft: bool, up: usize, deck: &Vec<u32>,
        hole_constraint: i32) -> (ev: EvRatio)
        requires
            deck@.len() == 10,
            dsum(deck@, 10) <= 416,
            up < 10,
        ensures
            ev.num as int == stand_value(
                deck@,
                pt_total as int,
                up as int,
                self.rules.dealer_hits_soft_17,
                hole_constraint as int,
            ).0,
            ev.den as int == stand_value(
                deck@,
                pt_total as int,
                up as int,
                self.rules.dealer_hits_soft_17,
                hole_constraint as int,
            ).1,
            1 <= ev.den,
            -(ev.den as int) <= ev.num as int <= ev.den as int,
    {
        let _ = pt_soft;
        stand_ev_q(pt_total, up, deck, self.rules.dealer_hits_soft_17, hole_constraint)
    }

    /// Exact one-card hit-then-stand expected value over a snapshot.
    pub fn hit_then_stand_ev(&self, pt_total: u32, pt_soft: bool, up: usize, deck: &Vec<u32>,
        hole_constraint: i32) -> (ev: EvRatio)
        requires
            deck@.len() == 10,
            dsum(deck@, 10) <= 416,
            up < 10,
            pt_total <= 32,
            pt_soft ==> 11 <= pt_total <= 21,
        ensures
            ev.num as int == hit_value(
                deck@,
                pt_total as int,
                pt_soft,
                up as int,
                self.rules.dealer_hits_soft_17,
                hole_constraint as int,
            ).0,
            ev.den as int == hit_value(
                deck@,
                pt_total as int,
                pt_soft,
                up as int,
                self.rules.dealer_hits_soft_17,
                hole_constraint as int,
            ).1,
            1 <= ev.den,
            -(ev.den as int) <= ev.num as int <= ev.den as int,
    {
        hit_then_stand_ev_q(
            pt_total,
            pt_soft,
            up,
            deck,
            self.rules.dealer_hits_soft_17,
            hole_constraint,
        )
    }

    /// Exact doubling expected value per unit of the original stake:
    /// one forced card, then stand; the doubled stake applies at
    /// settlement.
    pub fn double_ev(&self, pt_total: u32, pt_soft: bool, up: usize, deck: &Vec<u32>,
        hole_constraint: i32) -> (ev: EvRatio)
        requires
            deck@.len() == 10,
            dsum(deck@, 10) <= 416,
            up < 10,
            pt_total <= 32,
            pt_soft ==> 11 <= pt_total <= 21,
        ensures
            ev.num as int == hit_value(
                deck@,
                pt_total as int,
                pt_soft,
                up as int,
                self.rules.dealer_hits_soft_17,
                hole_constraint as int,
            ).0,
            ev.den as int == hit_value(
                deck@,
                pt_total as int,
                pt_soft,
                up as int,
                self.rules.dealer_hits_soft_17,
                hole_constraint as int,
            ).1,
            1 <= ev.den,
    {
        double_ev_q(
            pt_total,
            pt_soft,
            up,
            deck,
            self.rules.dealer_hits_soft_17,
            hole_constraint,
        )
    }

    /// Exact split expected value per original unit stake, treating
    /// the two children as independent (a deliberate approximation).
    pub fn split_ev(&self, pair_rank: usize, up: usize, deck: &Vec<u32>, hole_constraint: i32) -> (
        ev: EvRatio)
        requires
            deck@.len() == 10,
            dsum(deck@, 10) <= 156,
            up < 10,
            pair_rank < 10,
        ensures
            ({
                let so = self.rules.split_aces_stand_only && pair_rank == 0;
                &&& ev.num as int == split_value(
                    deck@,
                    pair_rank as int,
                    up as int,
                    self.rules.dealer_hits_soft_17,
                    hole_constraint as int,
                    so,
                ).0
                &&& ev.den as int == split_value(
                    deck@,
                    pair_rank as int,
                    up as int,
                    self.rules.dealer_hits_soft_17,
                    hole_constraint as int,
                    so,
                ).1
                &&& 1 <= ev.den
            }),
    {
        split_ev_q(
            pair_rank,
            up,
            deck,
            self.rules.dealer_hits_soft_17,
            hole_constraint,
            self.rules.double_after_split,
            self.rules.split_aces_stand_only,
        )
    }
}

/// The action the solver chooses for a hand `(t, s)` against up-card
/// `up` over deck `c`: the option with the strictly greatest expected
/// value among standing, hitting (valued by the one-card lookahead)
/// and, when allowed, doubling (twice the per-stake one-card value,
/// since the stake doubles); ties break toward standing.
pub open spec fn decide_spec(
    c: Seq<u32>,
    t: int,
    s: bool,
    up: int,
    h17: bool,
    hc: int,
    can_double: bool,
) -> Action {
    let es_c = stand_value(c, t, up, h17, hc).0 * child_stand_lift(c, hc);
    let eh_c = hit_value(c, t, s, up, h17, hc).0 * max1(dsum(c, 10) - 1);
    if can_double && 2 * eh_c > es_c && eh_c > 0 {
        Action::DoubleDown
    } else if eh_c > es_c {
        Action::Hit
    } else {
        Action::Stand
    }
}

/// Compares already-computed stand and hit values, brought to a common
/// scale, and picks the action `decide_spec` names.
#[verifier::rlimit(60)]
fn choose_action(
    es: EvRatio,
    eh: EvRatio,
    t: u32,
    s: bool,
    up: usize,
    deck: &Vec<u32>,
    h17: bool,
    hc: i32,
    can_double: bool,
) -> (act: Action)
    requires
        deck@.len() == 10,
        dsum(deck@, 10) <= 312,
        up < 10,
        es.num as int == stand_value(deck@, t as int, up as int, h17, hc as int).0,
        es.den as int == stand_value(deck@, t as int, up as int, h17, hc as int).1,
        -(es.den as int) <= es.num as int <= es.den as int,
        eh.num as int == hit_value(deck@, t as int, s, up as int, h17, hc as int).0,
        eh.den as int == hit_value(deck@, t as int, s, up as int, h17, hc as int).1,
        -(eh.den as int) <= eh.num as int <= eh.den as int,
    ensures
        act == decide_spec(deck@, t as int, s, up as int, h17, hc as int, can_double),
{
    {
        let n = crate::deck::deck_total(deck);
        let a0 = crate::deck::allowed_total(deck, hc);
        proof {
            crate::deck::lemma_dsum_nonneg(deck@, 10);
            crate::ev::lemma_stand_props(deck@, t as int, up as int, h17, hc as int);
            crate::deck::lemma_allowed_le_dsum(deck@, hc as int, 10);
            crate::deck::lemma_allowed_sum_nonneg(deck@, hc as int, 10);
            crate::dealer::lemma_scale_le_pow(dsum(deck@, 10) - 1, 11, 312);
            crate::dealer::lemma_scale_le_pow(dsum(deck@, 10) - 2, 11, 312);
            assert(vstd::arithmetic::power::pow(312, 11) == 2727096677140470662732709888) by {
                reveal_with_fuel(vstd::arithmetic::power::pow, 12);
            }
        }
        let lf_a: i128 = if a0 >= 2 {
            (a0 - 1) as i128
        } else {
            1
        };
        let lf_m: i128 = if n >= 1 {
            n as i128
        } else {
            1
        };
        let lf_m12: i128 = if n >= 13 {
            (n - 12) as i128
        } else {
            1
        };
        let lf_h: i128 = if n >= 2 {
            (n - 1) as i128
        } else {
            1
        };
        proof {
            let a2 = allowed_sum(deck@, hc as int, 10);
            assert(es.den as int <= 850854163267826846772605485056) by (nonlinear_arith)
                requires
                    es.den as int == stand_value(
                        deck@,
                        t as int,
                        up as int,
                        h17,
                        hc as int,
                    ).1,
                    a2 >= 1 ==> stand_value(deck@, t as int, up as int, h17, hc as int).1 == a2
                        * scale_den(dsum(deck@, 10) - 1, 11),
                    a2 == 0 ==> stand_value(deck@, t as int, up as int, h17, hc as int).1 == 1,
                    0 <= a2 <= 312,
                    1 <= scale_den(dsum(deck@, 10) - 1, 11) <= 2727096677140470662732709888,
            ;
            assert(1 <= lf_m * lf_m12 <= 97344) by (nonlinear_arith)
                requires
                    1 <= lf_m <= 312,
                    1 <= lf_m12 <= 312,
            ;
            assert(lf_a * (lf_m * lf_m12) == child_stand_lift(deck@, hc as int)
                && 1 <= child_stand_lift(deck@, hc as int) <= 30371328) by (nonlinear_arith)
                requires
                    lf_a == max1(a2 - 1),
                    lf_m == max1(dsum(deck@, 10)),
                    lf_m12 == max1(dsum(deck@, 10) - 12),
                    child_stand_lift(deck@, hc as int) == max1(a2 - 1) * (max1(dsum(deck@, 10))
                        * max1(dsum(deck@, 10) - 12)),
                    1 <= max1(a2 - 1) <= 312,
                    1 <= max1(dsum(deck@, 10)) <= 312,
                    1 <= max1(dsum(deck@, 10) - 12) <= 312,
            ;
            assert(-(es.den as int * 30371328) <= es.num as int * (lf_a * (lf_m * lf_m12))
                <= es.den as int * 30371328) by (nonlinear_arith)
                requires
                    -(es.den as int) <= es.num as int <= es.den as int,
                    1 <= lf_a * (lf_m * lf_m12) <= 30371328,
            ;
            assert(es.den as int * 30371328 <= 25841570872772721010536542601234874368)
                by (nonlinear_arith)
                requires
                    0 <= es.den as int <= 850854163267826846772605485056,
            ;
            crate::ev::lemma_hit_den_cap_or_one_312(deck@, hc as int);
            assert(-(eh.den as int * lf_h) <= eh.num as int * lf_h <= eh.den as int * lf_h)
                by (nonlinear_arith)
                requires
                    -(eh.den as int) <= eh.num as int <= eh.den as int,
                    1 <= lf_h,
            ;
            assert(eh.den as int * lf_h <= 25841570872772721010536542601234874368)
                by (nonlinear_arith)
                requires
                    1 <= eh.den as int <= 82825547669143336572232508337291264,
                    1 <= lf_h <= 312,
            ;
        }
        let es_c: i128 = es.num * (lf_a * (lf_m * lf_m12));
        let eh_c: i128 = eh.num * lf_h;
        if can_double && 2 * eh_c > es_c && eh_c > 0 {
            Action::DoubleDown
        } else if eh_c > es_c {
            Action::Hit
        } else {
            Action::Stand
        }
    }
}

impl BlackjackSimulator {
    /// Chooses the player's action over a frozen deck snapshot by
    /// comparing the exact expected values of standing, hitting and
    /// (when allowed) doubling, at the engine's effective lookahead
    /// depth of one card.
    pub fn decide(&self, t: u32, s: bool, up: usize, deck: &Vec<u32>, hc: i32, can_double: bool)
        -> (act: Action)
        requires
            deck@.len() == 10,
            dsum(deck@, 10) <= 312,
            up < 10,
            t <= 32,
            s ==> 11 <= t <= 21,
        ensures
            act == decide_spec(
                deck@,
                t as int,
                s,
                up as int,
                self.rules.dealer_hits_soft_17,
                hc as int,
                can_double,
            ),
            self.rules.effective_hit_depth() == 1,
    {
        let h17 = self.rules.dealer_hits_soft_17;
        let es = stand_ev_q(t, up, deck, h17, hc);
        let eh = hit_then_stand_ev_q(t, s, up, deck, h17, hc);
        choose_action(es, eh, t, s, up, deck, h17, hc, can_double)
    }

    /// Runs the dealer hand out against the live shoe: draw while the
    /// rules demand it, stopping on a stand, a bust, or an exhausted
    /// shoe (the defensive fallback). The returned value is exactly the
    /// hand value reached by applying the ghost-recorded draws, in
    /// order, to the starting value, and the shoe shrinks by exactly
    /// those draws.
    #[verifier::loop_isolation(false)]
    fn dealer_play(&mut self, t0: u32, s0: bool) -> (res: ((u32, bool), Ghost<Seq<int>>))
        requires
            old(self).wf(),
            t0 <= 32,
            s0 ==> 11 <= t0 <= 21,
        ensures
            final(self).wf(),
            final(self).rules == old(self).rules,
            final(self).stats == old(self).stats,
            forall|i: int| 0 <= i < res.1@.len() ==> 0 <= #[trigger] res.1@[i] < 10,
            res.0.0 as int == apply_cards(t0 as int, s0, res.1@).0,
            res.0.1 == apply_cards(t0 as int, s0, res.1@).1,
            dsum(final(self).shoe.counts@, 10) == dsum(old(self).shoe.counts@, 10)
                - res.1@.len(),
            res.0.0 > 21 || dealer_stands(
                res.0.0 as int,
                res.0.1,
                old(self).rules.dealer_hits_soft_17,
            ) || dsum(final(self).shoe.counts@, 10) == 0,
            res.0.0 <= 32,
    {
        let h17 = self.rules.dealer_hits_soft_17;
        let mut t = t0;
        let mut s = s0;
        let ghost mut drawn: Seq<int> = Seq::empty();
        loop
            invariant
                self.wf(),
                self.rules == old(self).rules,
                self.stats == old(self).stats,
                forall|i: int| 0 <= i < drawn.len() ==> 0 <= #[trigger] drawn[i] < 10,
                t as int == apply_cards(t0 as int, s0, drawn).0,
                s == apply_cards(t0 as int, s0, drawn).1,
                dsum(self.shoe.counts@, 10) == dsum(old(self).shoe.counts@, 10) - drawn.len(),
                t <= 32,
                s ==> 11 <= t <= 21,
            decreases chain_bound(t as int, s),
        {
            if t > 21 {
                return ((t, s), Ghost(drawn));
            }
            if t > 17 || (t == 17 && !(s && h17)) {
                return ((t, s), Ghost(drawn));
            }
            let remaining = self.shoe.remaining();
            if remaining == 0 {
                return ((t, s), Ghost(drawn));
            }
            proof {
                crate::cards::lemma_chain_bound_step(t as int, s, 0);
            }
            let r = self.draw();
            proof {
                crate::cards::lemma_chain_bound_step(t as int, s, r as int);
                lemma_apply_snoc(t0 as int, s0, drawn, r as int);
                drawn = drawn.push(r as int);
            }
            let nx = crate::cards::add_to(t, s, r);
            t = nx.0;
            s = nx.1;
        }
    }
}


/// Adds one, holding at the counter ceiling.
pub open spec fn bump64(x: int) -> int {
    if x < 0xffffffffffffffff {
        x + 1
    } else {
        x
    }
}

/// Saturating signed addition, as the statistics accumulators use it.
pub open spec fn sat_add_i64(a: int, b: int) -> int {
    if a + b > i64::MAX {
        i64::MAX as int
    } else if a + b < i64::MIN {
        i64::MIN as int
    } else {
        a + b
    }
}

/// Saturating unsigned addition, as the statistics accumulators use it.
pub open spec fn sat_add_u64(a: int, b: int) -> int {
    if a + b > u64::MAX {
        u64::MAX as int
    } else {
        a + b
    }
}

fn bump(x: u64) -> (y: u64)
    ensures
        y as int == bump64(x as int),
{
    if x < 0xffffffffffffffff {
        x + 1
    } else {
        x
    }
}

fn add_u64_sat(a: u64, b: u64) -> (c: u64)
    ensures
        c as int == sat_add_u64(a as int, b as int),
        c >= a,
        c >= b,
{
    if a <= u64::MAX - b {
        a + b
    } else {
        u64::MAX
    }
}

fn add_i64_sat(a: i64, b: i64) -> (c: i64)
    ensures
        c as int == sat_add_i64(a as int, b as int),
{
    if b >= 0 {
        if a <= i64::MAX - b {
            a + b
        } else {
            i64::MAX
        }
    } else {
        if a >= i64::MIN - b {
            a + b
        } else {
            i64::MIN
        }
    }
}

impl BlackjackSimulator {
    /// Plays one full hand against the live shoe: reshuffle check,
    /// deal, peek, player actions chosen by the solver (with splits
    /// bounded by the configured cap), dealer runout, settlement.
    /// Returns the signed profit (in units of one over the payout
    /// denominator) and the total stake of the deal, and folds both
    /// into the running statistics (saturating at the counter limits).
    #[verifier::loop_isolation(false)]
    #[verifier::rlimit(80)]
    pub fn play_one_hand(&mut self) -> (out: HandOutcome)
        requires
            old(self).wf(),
            old(self).rules.num_decks <= 6,
        ensures
            final(self).wf(),
            final(self).rules == old(self).rules,
            final(self).stats.hands_played as int == bump64(old(self).stats.hands_played as int),
            final(self).stats.wagered >= old(self).stats.wagered,
            final(self).stats.reshuffles as int == (if needs_reshuffle(
                old(self).rules,
                old(self).shoe.counts@,
            ) {
                bump64(old(self).stats.reshuffles as int)
            } else {
                old(self).stats.reshuffles as int
            }),
            final(self).stats.stand_actions >= old(self).stats.stand_actions,
            final(self).stats.hit_actions >= old(self).stats.hit_actions,
            final(self).stats.double_actions >= old(self).stats.double_actions,
            final(self).stats.split_actions >= old(self).stats.split_actions,
            out.pnl_den == old(self).rules.payout_den as u64,
            1 <= out.wagered,
            final(self).stats.pnl_num as int == sat_add_i64(
                old(self).stats.pnl_num as int,
                out.pnl_num as int,
            ),
            final(self).stats.wagered as int == sat_add_u64(
                old(self).stats.wagered as int,
                out.wagered as int,
            ),
            out.player_natural@ ==> (out.pnl_num == old(self).rules.payout_num && out.wagered
                == 1),
            !out.player_natural@ ==> ({
                let hs = out.settled@;
                &&& 1 <= hs.len()
                &&& (forall|i: int| 0 <= i < hs.len() ==> ((#[trigger] hs[i].1) == 1 || hs[i].1
                    == 2))
                &&& out.pnl_num as int == settle_sum(
                    hs,
                    out.dealer_total@ as int,
                    old(self).rules.payout_den as int,
                    hs.len() as int,
                )
                &&& out.wagered as int == stake_sum(hs, hs.len() as int)
            }),
            -(2 * (old(self).rules.payout_den as int) * (out.wagered as int)) <= out.pnl_num as int,
            out.pnl_num as int <= (old(self).rules.payout_den as int) * (out.wagered as int) + (
            old(self).rules.payout_num as int),
            out.cards_dealt@ >= 3,
            dsum(final(self).shoe.counts@, 10) == (if needs_reshuffle(
                old(self).rules,
                old(self).shoe.counts@,
            ) {
                52 * old(self).rules.num_decks
            } else {
                dsum(old(self).shoe.counts@, 10)
            }) - out.cards_dealt@,
    {
        self.maybe_reshuffle();
        proof {
            crate::deck::lemma_dsum_nonneg(self.shoe.counts@, 10);
        }
        let ghost hands0 = self.stats.hands_played;
        let ghost resh0 = self.stats.reshuffles;
        let ghost shoe1 = dsum(self.shoe.counts@, 10);
        let ghost mut dealt: int = 0;
        proof {
            assert(shoe1 == (if needs_reshuffle(old(self).rules, old(self).shoe.counts@) {
                52 * old(self).rules.num_decks as int
            } else {
                dsum(old(self).shoe.counts@, 10)
            }));
            assert(shoe1 <= 312);
        }
        let p1 = self.draw();
        let p2 = self.draw();
        let up = self.draw();
        proof {
            dealt = 3;
        }
        let mut hand: Vec<u8> = Vec::new();
        hand.push(p1 as u8);
        hand.push(p2 as u8);
        let hv0 = hand_value(&hand);
        let player_bj = hv0.0 == 21;
        let payout_den_u64: u64 = self.rules.payout_den as u64;
        let ghost pn: int = self.rules.payout_num as int;
        let mut hc: i32 = HOLE_ANY;
        let mut hole: usize = 0;
        let mut hole_drawn: bool = false;
        if up == 0 || up == 9 {
            if self.shoe.remaining() >= 1 {
                hole = self.draw();
                hole_drawn = true;
                proof {
                    dealt = dealt + 1;
                    crate::cards::lemma_two_card_props(up as int, hole as int);
                }
                let f = crate::cards::add_to(0, false, up);
                let tc = crate::cards::add_to(f.0, crate::cards::value_soft(f), hole);
                if tc.0 == 21 {
                    let pnl: i64 = if player_bj {
                        0
                    } else {
                        -(payout_den_u64 as i64)
                    };
                    self.stats.hands_played = bump(self.stats.hands_played);
                    self.stats.pnl_num = add_i64_sat(self.stats.pnl_num, pnl);
                    self.stats.wagered = add_u64_sat(self.stats.wagered, 1);
                    let ghost hs0: Seq<(u32, u32)> = seq![(hv0.0, 1u32)];
                    proof {
                        assert(hs0[0] == (hv0.0, 1u32));
                        assert(stake_sum(hs0, 0) == 0);
                        assert(settle_sum(hs0, 21, payout_den_u64 as int, 0) == 0);
                        assert(stake_sum(hs0, 1) == 1);
                        assert(settle_sum(hs0, 21, payout_den_u64 as int, 1) == settle_outcome(
                            hv0.0 as int,
                            21,
                        ) * (1 * (payout_den_u64 as int)));
                        assert(1 * (payout_den_u64 as int) == payout_den_u64 as int)
                            by (nonlinear_arith);
                        assert(settle_outcome(hv0.0 as int, 21) * (payout_den_u64 as int)
                            == pnl as int) by (nonlinear_arith)
                            requires
                                settle_outcome(hv0.0 as int, 21) == (if hv0.0 as int == 21 {
                                    0int
                                } else {
                                    -1int
                                }),
                                pnl as int == (if hv0.0 as int == 21 {
                                    0int
                                } else {
                                    -(payout_den_u64 as int)
                                }),
                        ;
                        assert(-(2 * (payout_den_u64 as int) * 1) <= pnl as int <= (
                        payout_den_u64 as int) * 1 + pn) by (nonlinear_arith)
                            requires
                                pnl as int == 0 || pnl as int == -(payout_den_u64 as int),
                                payout_den_u64 as int >= 1,
                                pn >= 0,
                        ;
                    }
                    return HandOutcome {
                        pnl_num: pnl,
                        pnl_den: payout_den_u64,
                        wagered: 1,
                        settled: Ghost(hs0),
                        dealer_total: Ghost(21),
                        player_natural: Ghost(false),
                        cards_dealt: Ghost(dealt),
                    };
                }
                hc = if up == 0 {
                    HOLE_NOT_TEN
                } else {
                    HOLE_NOT_ACE
                };
            }
        }
        if player_bj {
            let pnl: i64 = self.rules.payout_num as i64;
            self.stats.hands_played = bump(self.stats.hands_played);
            self.stats.pnl_num = add_i64_sat(self.stats.pnl_num, pnl);
            self.stats.wagered = add_u64_sat(self.stats.wagered, 1);
            proof {
                assert(-(2 * (payout_den_u64 as int) * 1) <= pnl as int <= (
                payout_den_u64 as int) * 1 + pn) by (nonlinear_arith)
                    requires
                        pnl as int == pn,
                        payout_den_u64 as int >= 1,
                        pn >= 0,
                ;
            }
            let ghost none: Seq<(u32, u32)> = Seq::empty();
            return HandOutcome {
                pnl_num: pnl,
                pnl_den: payout_den_u64,
                wagered: 1,
                settled: Ghost(none),
                dealer_total: Ghost(0),
                player_natural: Ghost(true),
                cards_dealt: Ghost(dealt),
            };
        }
        let mut queue: Vec<(Vec<u8>, bool)> = Vec::new();
        queue.push((hand, false));
        let mut done: Vec<(u32, u32)> = Vec::new();
        let mut splits_done: u64 = 0;
        while queue.len() > 0
            invariant
                self.wf(),
                self.rules == old(self).rules,
                self.stats.hands_played == hands0,
                self.stats.wagered == old(self).stats.wagered,
                self.stats.pnl_num == old(self).stats.pnl_num,
                self.stats.reshuffles == resh0,
                self.stats.stand_actions >= old(self).stats.stand_actions,
                self.stats.hit_actions >= old(self).stats.hit_actions,
                self.stats.double_actions >= old(self).stats.double_actions,
                self.stats.split_actions >= old(self).stats.split_actions,
                dsum(self.shoe.counts@, 10) <= 309,
                dsum(self.shoe.counts@, 10) == shoe1 - dealt,
                dealt >= 3,
                2 * splits_done as int + dsum(self.shoe.counts@, 10) <= shoe1 - 3,
                done@.len() + queue@.len() <= 1 + splits_done as int,
                forall|i: int|
                    0 <= i < queue@.len() ==> (1 <= #[trigger] queue@[i].0@.len() <= 22
                        && (forall|j: int|
                        0 <= j < queue@[i].0@.len() ==> queue@[i].0@[j] < 10)),
                forall|i: int|
                    0 <= i < done@.len() ==> (#[trigger] done@[i].1 == 1 || done@[i].1 == 2),
                done@.len() + queue@.len() >= 1,
            decreases queue@.len() + dsum(self.shoe.counts@, 10),
        {
            let lh = queue.pop().unwrap();
            let cards = lh.0;
            let from_split = lh.1;
            let hv = hand_value(&cards);
            let remaining = self.shoe.remaining();
            let is_pair = cards.len() == 2 && {
                let c0 = cards[0];
                let c1 = cards[1];
                c0 == c1
            };
            if hv.0 >= 21 {
                done.push((hv.0, 1));
            } else if is_pair && splits_done < (self.rules.max_splits as u64) && remaining >= 2
                && should_split_pair(cards[0] as usize, up) {
                splits_done = splits_done + 1;
                self.stats.split_actions = bump(self.stats.split_actions);
                let pc = cards[0];
                let r1 = self.draw();
                let r2 = self.draw();
                proof {
                    dealt = dealt + 2;
                }
                let mut h1: Vec<u8> = Vec::new();
                h1.push(pc);
                h1.push(r1 as u8);
                let mut h2: Vec<u8> = Vec::new();
                h2.push(pc);
                h2.push(r2 as u8);
                queue.push((h1, true));
                queue.push((h2, true));
            } else if from_split && cards.len() == 2 && cards[0] == 0
                && self.rules.split_aces_stand_only {
                done.push((hv.0, 1));
            } else {
                let mut snap = self.shoe.snapshot();
                if hole_drawn {
                    proof {
                        crate::deck::lemma_count_le_dsum(snap@, hole as int, 10);
                        crate::deck::lemma_dsum_update(
                            snap@,
                            hole as int,
                            (snap@[hole as int] + 1) as u32,
                            10,
                        );
                        crate::deck::lemma_dsum_nonneg(snap@, 10);
                    }
                    let cv = snap[hole];
                    snap.set(hole, cv + 1);
                }
                let can_double = cards.len() == 2 && remaining >= 1 && (!from_split
                    || self.rules.double_after_split);
                proof {
                    crate::cards::lemma_low_sum_ge_len(cards@, cards@.len() as int);
                }
                let act = self.decide_cached(hv.0, hv.1, up, &snap, hc, can_double);
                match act {
                    Action::Stand => {
                        self.stats.stand_actions = bump(self.stats.stand_actions);
                        done.push((hv.0, 1));
                    },
                    Action::Hit => {
                        if self.shoe.remaining() >= 1 {
                            proof {
                                crate::cards::lemma_low_sum_ge_len(
                                    cards@,
                                    cards@.len() as int,
                                );
                            }
                            self.stats.hit_actions = bump(self.stats.hit_actions);
                            let r = self.draw();
                            proof {
                                dealt = dealt + 1;
                            }
                            let mut cards2 = cards;
                            cards2.push(r as u8);
                            queue.push((cards2, from_split));
                        } else {
                            done.push((hv.0, 1));
                        }
                    },
                    Action::DoubleDown => {
                        if self.shoe.remaining() >= 1 {
                            proof {
                                crate::cards::lemma_low_sum_ge_len(
                                    cards@,
                                    cards@.len() as int,
                                );
                            }
                            self.stats.double_actions = bump(self.stats.double_actions);
                            let r = self.draw();
                            proof {
                                dealt = dealt + 1;
                            }
                            let mut cards2 = cards;
                            cards2.push(r as u8);
                            let hv2 = hand_value(&cards2);
                            done.push((hv2.0, 2));
                        } else {
                            done.push((hv.0, 1));
                        }
                    },
                }
            }
        }
        let mut any_live = false;
        let mut i: usize = 0;
        while i < done.len()
            invariant
                i <= done@.len(),
            decreases done@.len() - i,
        {
            if done[i].0 <= 21 {
                any_live = true;
            }
            i = i + 1;
        }
        let mut dt: u32 = 0;
        if any_live {
            if !hole_drawn {
                if self.shoe.remaining() >= 1 {
                    hole = self.draw();
                    hole_drawn = true;
                    proof {
                        dealt = dealt + 1;
                    }
                }
            }
            let f = crate::cards::add_to(0, false, up);
            let start: (u32, bool) = if hole_drawn {
                proof {
                    crate::cards::lemma_two_card_props(up as int, hole as int);
                }
                crate::cards::add_to(f.0, crate::cards::value_soft(f), hole)
            } else {
                f
            };
            let d = self.dealer_play(start.0, crate::cards::value_soft(start));
            dt = (d.0).0;
            proof {
                dealt = dealt + d.1@.len();
            }
        }
        proof {
            crate::deck::lemma_dsum_nonneg(self.shoe.counts@, 10);
            assert(done@.len() <= 155);
        }
        let mut pnl: i64 = 0;
        let mut wag: u64 = 0;
        let mut i: usize = 0;
        while i < done.len()
            invariant
                i <= done@.len(),
                self.wf(),
                self.rules == old(self).rules,
                self.stats.hands_played == hands0,
                self.stats.wagered == old(self).stats.wagered,
                self.stats.pnl_num == old(self).stats.pnl_num,
                self.stats.reshuffles == resh0,
                self.stats.stand_actions >= old(self).stats.stand_actions,
                self.stats.hit_actions >= old(self).stats.hit_actions,
                self.stats.double_actions >= old(self).stats.double_actions,
                self.stats.split_actions >= old(self).stats.split_actions,
                forall|k: int|
                    0 <= k < done@.len() ==> (#[trigger] done@[k].1 == 1 || done@[k].1 == 2),
                pnl as int == settle_sum(done@, dt as int, payout_den_u64 as int, i as int),
                wag as int == stake_sum(done@, i as int),
            decreases done@.len() - i,
        {
            let pt = done[i].0;
            let stake = done[i].1;
            let v = settle_hand(pt, dt);
            proof {
                lemma_settle_sum_bounds(done@, dt as int, payout_den_u64 as int, i as int);
                lemma_settle_sum_bounds(done@, dt as int, payout_den_u64 as int, i as int + 1);
                assert(-(2 * (payout_den_u64 as int)) <= (v as int) * ((stake as int) * (
                payout_den_u64 as int)) <= 2 * (payout_den_u64 as int)) by (nonlinear_arith)
                    requires
                        -1 <= v as int <= 1,
                        1 <= stake as int <= 2,
                        0 <= payout_den_u64 as int <= 0xffffffff,
                ;
                assert((payout_den_u64 as int) * stake_sum(done@, i as int + 1)
                    <= 0xffffffff * 312) by (nonlinear_arith)
                    requires
                        0 <= payout_den_u64 as int <= 0xffffffff,
                        0 <= stake_sum(done@, i as int + 1) <= 312,
                ;
            }
            let delta: i64 = (v as i64) * ((stake as i64) * (payout_den_u64 as i64));
            pnl = pnl + delta;
            wag = wag + (stake as u64);
            i = i + 1;
        }
        proof {
            lemma_settle_sum_bounds(done@, dt as int, payout_den_u64 as int, done@.len() as int);
            let ss = stake_sum(done@, done@.len() as int);
            assert(-(2 * (payout_den_u64 as int) * ss) <= settle_sum(
                done@,
                dt as int,
                payout_den_u64 as int,
                done@.len() as int,
            ) <= (payout_den_u64 as int) * ss + pn) by (nonlinear_arith)
                requires
                    0 <= payout_den_u64 as int,
                    0 <= pn,
                    0 <= ss,
                    -((payout_den_u64 as int) * ss) <= settle_sum(
                        done@,
                        dt as int,
                        payout_den_u64 as int,
                        done@.len() as int,
                    ) <= (payout_den_u64 as int) * ss,
            ;
        }
        self.stats.hands_played = bump(self.stats.hands_played);
        self.stats.pnl_num = add_i64_sat(self.stats.pnl_num, pnl);
        self.stats.wagered = add_u64_sat(self.stats.wagered, wag);
        HandOutcome {
            pnl_num: pnl,
            pnl_den: payout_den_u64,
            wagered: wag,
            settled: Ghost(done@),
            dealer_total: Ghost(dt),
            player_natural: Ghost(false),
            cards_dealt: Ghost(dealt),
        }
    }
}

impl BlackjackSimulator {
    /// The conditioned dealer distribution for `(deck, up, hc)` through
    /// the dealer-distribution memo: a cached entry is returned as is,
    /// a miss computes the distribution and caches it.
    #[verifier::loop_isolation(false)]
    pub fn cond_dist_cached(&mut self, up: usize, deck: &Vec<u32>, hc: i32) -> (res: (
        Vec<u128>,
        u128,
    ))
        requires
            old(self).wf(),
            deck@.len() == 10,
            dsum(deck@, 10) <= 416,
            up < 10,
        ensures
            final(self).wf(),
            final(self).rules == old(self).rules,
            final(self).shoe == old(self).shoe,
            final(self).rng == old(self).rng,
            final(self).stats == old(self).stats,
            res.0@.len() == 6,
            res.1 as int == cond_den(deck@, hc as int),
            forall|i: int|
                0 <= i < 6 ==> res.0@[i] as int == cond_dist(
                    deck@,
                    up as int,
                    old(self).rules.dealer_hits_soft_17,
                    hc as int,
                    10,
                )[i],
    {
        let mut i: usize = 0;
        while i < self.dealer_memo.len()
            invariant
                i <= self.dealer_memo@.len(),
                *self == *old(self),
            decreases self.dealer_memo@.len() - i,
        {
            let hit_meta = self.dealer_memo[i].up == up && self.dealer_memo[i].hc == hc;
            if hit_meta {
                if vecs_equal(&self.dealer_memo[i].deck, deck) {
                    let dist = copy_dist(&self.dealer_memo[i].dist);
                    let den = self.dealer_memo[i].den;
                    return (dist, den);
                }
            }
            i = i + 1;
        }
        let (dist, den) = crate::dealer::distribution_given_upcard(
            up,
            deck,
            self.rules.dealer_hits_soft_17,
            hc,
        );
        let entry = DealerMemoEntry {
            deck: crate::dealer::copy_counts(deck),
            up,
            hc,
            dist: copy_dist(&dist),
            den,
        };
        self.dealer_memo.push(entry);
        (dist, den)
    }

    /// The solver's decision for `(deck, hand value, up, hc, doubling
    /// right)` through the decision memo: a cached entry is returned as
    /// is, a miss evaluates the expected values (the stand leg through
    /// the dealer-distribution memo) and caches the chosen action.
    #[verifier::loop_isolation(false)]
    pub fn decide_cached(&mut self, t: u32, s: bool, up: usize, deck: &Vec<u32>, hc: i32,
        can_double: bool) -> (act: Action)
        requires
            old(self).wf(),
            deck@.len() == 10,
            dsum(deck@, 10) <= 312,
            up < 10,
            t <= 32,
            s ==> 11 <= t <= 21,
        ensures
            final(self).wf(),
            final(self).rules == old(self).rules,
            final(self).shoe == old(self).shoe,
            final(self).rng == old(self).rng,
            final(self).stats == old(self).stats,
            act == decide_spec(
                deck@,
                t as int,
                s,
                up as int,
                old(self).rules.dealer_hits_soft_17,
                hc as int,
                can_double,
            ),
    {
        let mut i: usize = 0;
        while i < self.decision_memo.len()
            invariant
                i <= self.decision_memo@.len(),
                *self == *old(self),
            decreases self.decision_memo@.len() - i,
        {
            let hit_meta = self.decision_memo[i].total == t && self.decision_memo[i].soft == s
                && self.decision_memo[i].up == up && self.decision_memo[i].hc == hc
                && self.decision_memo[i].can_double == can_double;
            if hit_meta {
                if vecs_equal(&self.decision_memo[i].deck, deck) {
                    return self.decision_memo[i].act;
                }
            }
            i = i + 1;
        }
        let h17 = self.rules.dealer_hits_soft_17;
        let (dist, den) = self.cond_dist_cached(up, deck, hc);
        let es = crate::ev::stand_ev_from_dist(t, &dist, den, deck, up, h17, hc);
        let eh = hit_then_stand_ev_q(t, s, up, deck, h17, hc);
        let act = choose_action(es, eh, t, s, up, deck, h17, hc, can_double);
        let entry = DecisionMemoEntry {
            deck: crate::dealer::copy_counts(deck),
            total: t,
            soft: s,
            up,
            hc,
            can_double,
            act,
        };
        self.decision_memo.push(entry);
        act
    }
}



} // verus!
