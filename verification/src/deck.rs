//! Deck compositions: a fixed 10-entry non-negative count vector, one
//! entry per rank bucket, with removal and insertion primitives that
//! never drive a bucket negative.

use vstd::prelude::*;
use crate::cards::hole_ok;

verus! {

/// Largest number of cards any deck snapshot may hold: eight 52-card
/// decks. This keeps every scaled probability within machine integers.
pub const MAX_CARDS: u32 = 416;

/// Sum of the first `k` rank counts.
pub open spec fn dsum(c: Seq<u32>, k: int) -> int
    decreases k,
{
    if k <= 0 {
        0
    } else {
        dsum(c, k - 1) + c[k - 1]
    }
}

/// Sum of the first `k` rank counts over ranks admissible as a hole card.
pub open spec fn allowed_sum(c: Seq<u32>, hc: int, k: int) -> int
    decreases k,
{
    if k <= 0 {
        0
    } else {
        allowed_sum(c, hc, k - 1) + if hole_ok(hc, k - 1) {
            c[k - 1] as int
        } else {
            0
        }
    }
}

pub proof fn lemma_dsum_nonneg(c: Seq<u32>, k: int)
    ensures
        dsum(c, k) >= 0,
    decreases k,
{
    if k > 0 {
        lemma_dsum_nonneg(c, k - 1);
    }
}

pub proof fn lemma_allowed_sum_nonneg(c: Seq<u32>, hc: int, k: int)
    ensures
        allowed_sum(c, hc, k) >= 0,
    decreases k,
{
    if k > 0 {
        lemma_allowed_sum_nonneg(c, hc, k - 1);
    }
}

/// Each counted rank is no more than the whole sum.
pub proof fn lemma_count_le_dsum(c: Seq<u32>, j: int, k: int)
    requires
        0 <= j < k,
    ensures
        c[j] <= dsum(c, k),
    decreases k,
{
    lemma_dsum_nonneg(c, j);
    if j < k - 1 {
        lemma_count_le_dsum(c, j, k - 1);
    }
}

/// The admissible-rank sum never exceeds the whole sum.
pub proof fn lemma_allowed_le_dsum(c: Seq<u32>, hc: int, k: int)
    ensures
        allowed_sum(c, hc, k) <= dsum(c, k),
    decreases k,
{
    if k > 0 {
        lemma_allowed_le_dsum(c, hc, k - 1);
    }
}

/// How the sum changes when one entry is overwritten.
pub proof fn lemma_dsum_update(c: Seq<u32>, j: int, v: u32, k: int)
    requires
        0 <= j < c.len(),
        k <= c.len(),
    ensures
        dsum(c.update(j, v), k) == dsum(c, k) + if j < k {
            v - c[j]
        } else {
            0
        },
    decreases k,
{
    if k > 0 {
        lemma_dsum_update(c, j, v, k - 1);
    }
}

/// How the admissible-rank sum changes when one entry is overwritten.
pub proof fn lemma_allowed_update(c: Seq<u32>, hc: int, j: int, v: u32, k: int)
    requires
        0 <= j < c.len(),
        k <= c.len(),
    ensures
        allowed_sum(c.update(j, v), hc, k) == allowed_sum(c, hc, k) + if j < k && hole_ok(hc, j) {
            v - c[j]
        } else {
            0
        },
    decreases k,
{
    if k > 0 {
        lemma_allowed_update(c, hc, j, v, k - 1);
    }
}

/// A deck snapshot is well formed when it has one entry per rank bucket
/// and no more cards than eight full decks.
pub open spec fn deck_wf(c: Seq<u32>) -> bool {
    c.len() == 10 && dsum(c, 10) <= MAX_CARDS
}

/// Total cards in a 10-entry snapshot.
pub fn deck_total(c: &Vec<u32>) -> (n: u64)
    requires
        c@.len() == 10,
        dsum(c@, 10) <= u32::MAX,
    ensures
        n as int == dsum(c@, 10),
{
    let mut n: u64 = 0;
    let mut i: usize = 0;
    while i < 10
        invariant
            0 <= i <= 10,
            c@.len() == 10,
            dsum(c@, 10) <= u32::MAX,
            n as int == dsum(c@, i as int),
        decreases 10 - i,
    {
        proof {
            lemma_dsum_nonneg(c@, i as int);
            lemma_partial_dsum_le(c@, i as int + 1, 10);
        }
        n = n + (c[i] as u64);
        i = i + 1;
    }
    n
}

/// Partial sums grow towards the full sum.
pub proof fn lemma_partial_dsum_le(c: Seq<u32>, k: int, m: int)
    requires
        0 <= k <= m,
    ensures
        dsum(c, k) <= dsum(c, m),
    decreases m - k,
{
    if k < m {
        lemma_partial_dsum_le(c, k + 1, m);
    }
}

/// Cards admissible as a hole card in a 10-entry snapshot.
pub fn allowed_total(c: &Vec<u32>, hc: i32) -> (a: u64)
    requires
        c@.len() == 10,
        dsum(c@, 10) <= u32::MAX,
    ensures
        a as int == allowed_sum(c@, hc as int, 10),
{
    let mut a: u64 = 0;
    let mut i: usize = 0;
    while i < 10
        invariant
            0 <= i <= 10,
            c@.len() == 10,
            dsum(c@, 10) <= u32::MAX,
            a as int == allowed_sum(c@, hc as int, i as int),
        decreases 10 - i,
    {
        proof {
            lemma_allowed_sum_nonneg(c@, hc as int, i as int);
            lemma_allowed_le_dsum(c@, hc as int, i as int + 1);
            lemma_partial_dsum_le(c@, i as int + 1, 10);
        }
        if crate::cards::hole_allowed(hc, i) {
            a = a + (c[i] as u64);
        }
        i = i + 1;
    }
    a
}

/// Total cards in a 10-entry snapshot, with no bound assumed on the
/// entries.
pub fn deck_total_any(c: &Vec<u32>) -> (n: u64)
    requires
        c@.len() == 10,
    ensures
        n as int == dsum(c@, 10),
{
    let mut n: u64 = 0;
    let mut i: usize = 0;
    while i < 10
        invariant
            0 <= i <= 10,
            c@.len() == 10,
            n as int == dsum(c@, i as int),
            n <= (i as u64) * 0xffffffff,
        decreases 10 - i,
    {
        n = n + (c[i] as u64);
        i = i + 1;
    }
    n
}

/// The undealt cards of a shoe, or a frozen snapshot handed to the
/// solver: one non-negative count per rank bucket.
pub struct DeckState {
    pub counts: Vec<u32>,
}

impl DeckState {
    /// Well-formed: ten buckets, at most eight full decks in all.
    pub open spec fn wf(&self) -> bool {
        deck_wf(self.counts@)
    }

    /// A full shoe of `num_decks` standard decks: four cards per rank,
    /// sixteen in the ten-bucket, per deck.
    pub fn full_shoe(num_decks: u32) -> (d: DeckState)
        requires
            1 <= num_decks <= 8,
        ensures
            d.wf(),
            d.counts@.len() == 10,
            forall|i: int| 0 <= i < 9 ==> d.counts@[i] == 4 * num_decks,
            d.counts@[9] == 16 * num_decks,
            dsum(d.counts@, 10) == 52 * num_decks,
    {
        let mut counts: Vec<u32> = Vec::new();
        let mut i: usize = 0;
        while i < 9
            invariant
                0 <= i <= 9,
                num_decks <= 8,
                counts@.len() == i,
                forall|j: int| 0 <= j < i ==> counts@[j] == 4 * num_decks,
            decreases 9 - i,
        {
            counts.push(4 * num_decks);
            i = i + 1;
        }
        counts.push(16 * num_decks);
        proof {
            lemma_shoe_sum(counts@, num_decks, 9);
            assert(dsum(counts@, 10) == dsum(counts@, 9) + counts@[9]);
        }
        DeckState { counts }
    }

    pub fn remaining(&self) -> (n: u64)
        requires
            self.wf(),
        ensures
            n as int == dsum(self.counts@, 10),
    {
        deck_total(&self.counts)
    }

    pub fn count_of(&self, r: usize) -> (n: u32)
        requires
            self.wf(),
            r < 10,
        ensures
            n == self.counts@[r as int],
    {
        self.counts[r]
    }

    /// Removes one card of rank `r`; the bucket must not go negative.
    pub fn remove(&mut self, r: usize)
        requires
            old(self).wf(),
            r < 10,
            old(self).counts@[r as int] > 0,
        ensures
            final(self).wf(),
            final(self).counts@ == old(self).counts@.update(r as int, (old(self).counts@[
                r as int] - 1) as u32),
            dsum(final(self).counts@, 10) == dsum(old(self).counts@, 10) - 1,
    {
        proof {
            lemma_dsum_update(
                self.counts@,
                r as int,
                (self.counts@[r as int] - 1) as u32,
                10,
            );
        }
        let c = self.counts[r];
        self.counts.set(r, c - 1);
    }

    /// Puts one card of rank `r` back.
    pub fn insert(&mut self, r: usize)
        requires
            old(self).wf(),
            r < 10,
            dsum(old(self).counts@, 10) < MAX_CARDS,
        ensures
            final(self).wf(),
            final(self).counts@ == old(self).counts@.update(r as int, (old(self).counts@[
                r as int] + 1) as u32),
            dsum(final(self).counts@, 10) == dsum(old(self).counts@, 10) + 1,
    {
        proof {
            lemma_count_le_dsum(self.counts@, r as int, 10);
            lemma_dsum_update(
                self.counts@,
                r as int,
                (self.counts@[r as int] + 1) as u32,
                10,
            );
        }
        let c = self.counts[r];
        self.counts.set(r, c + 1);
    }

    /// A frozen copy of the composition, for solver queries.
    pub fn snapshot(&self) -> (c: Vec<u32>)
        requires
            self.wf(),
        ensures
            c@ == self.counts@,
    {
        let mut out: Vec<u32> = Vec::new();
        let mut i: usize = 0;
        while i < 10
            invariant
                0 <= i <= 10,
                self.wf(),
                out@.len() == i,
                forall|j: int| 0 <= j < i ==> out@[j] == self.counts@[j],
            decreases 10 - i,
        {
            out.push(self.counts[i]);
            i = i + 1;
        }
        proof {
            assert(out@ =~= self.counts@);
        }
        out
    }
}

proof fn lemma_shoe_sum(c: Seq<u32>, num_decks: u32, k: int)
    requires
        0 <= k <= 9,
        c.len() >= k,
        forall|j: int| 0 <= j < k ==> c[j] == 4 * num_decks,
    ensures
        dsum(c, k) == 4 * num_decks * k,
    decreases k,
{
    if k > 0 {
        lemma_shoe_sum(c, num_decks, k - 1);
        assert(c[k - 1] == 4 * num_decks);
        let d = num_decks as int;
        assert(dsum(c, k) == dsum(c, k - 1) + c[k - 1]);
        assert(4 * d * (k - 1) + 4 * d == 4 * d * k) by (nonlinear_arith);
        assert(dsum(c, k) == 4 * d * k);
    } else {
        assert(dsum(c, k) == 0);
        assert(4 * (num_decks as int) * k == 0) by (nonlinear_arith)
            requires
                k == 0,
        ;
    }
}

} // verus!
