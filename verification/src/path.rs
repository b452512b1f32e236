//! The hidden length of a suit's path and what has been ruled out about it.

use crate::card::{Rank, NUM_RANKS};
use crate::chance::random_in_range;
use vstd::prelude::*;

verus! {

/// The secret progress a suit needs: a rank fixed when the game starts.
#[derive(Clone, Copy, Debug)]
pub struct PathLength(pub(crate) Rank);

impl PathLength {
    /// The rank that is the length.
    pub open(crate) spec fn rank_of(self) -> Rank {
        self.0
    }

    /// The path length of the given rank.
    pub fn new(rank: Rank) -> (length: PathLength)
        ensures
            length.rank_of() == rank,
    {
        PathLength(rank)
    }

    /// A path length drawn uniformly from the thirteen ranks.
    #[must_use]
    pub fn random() -> (length: PathLength)
        ensures
            length.rank_of().index() < NUM_RANKS,
    {
        PathLength(Rank::random())
    }

    /// The rank that is the length.
    pub fn rank(&self) -> (r: Rank)
        ensures
            r == self.rank_of(),
    {
        self.0
    }
}

/// The ranks that are publicly known not to be a suit's path length, as a
/// bit set: bit `i` stands for the rank of index `i`.
#[derive(Clone, Copy)]
pub struct PathLengthInfo(pub(crate) u16);

/// Setting one bit of a bit set changes that bit and no other, and keeps a
/// set of thirteen bits within thirteen bits.
proof fn lemma_set_bit(bits: u16, r: u16, i: u16)
    by (bit_vector)
    requires
        r < 13,
        i < 13,
    ensures
        ((bits | (1u16 << r)) >> i) & 1 == (if i == r {
            1u16
        } else {
            (bits >> i) & 1
        }),
        bits < 0x2000 ==> (bits | (1u16 << r)) < 0x2000,
{
}

/// The empty bit set has no bit set.
proof fn lemma_no_bit(i: u16)
    by (bit_vector)
    requires
        i < 13,
    ensures
        (0u16 >> i) & 1 == 0,
{
}

impl PathLengthInfo {
    /// Only the thirteen bits that stand for ranks are ever set.
    #[verifier::type_invariant]
    pub open(crate) spec fn in_range(self) -> bool {
        self.0 < 0x2000
    }

    /// Whether the rank of index `i` has been revealed.
    pub open(crate) spec fn showing(self, i: nat) -> bool {
        i < NUM_RANKS && (self.0 >> (i as u16)) & 1 == 1
    }

    /// How many of the ranks of index below `n` have been revealed.
    pub open(crate) spec fn showing_below(self, n: nat) -> nat
        decreases n,
    {
        if n == 0 {
            0
        } else {
            self.showing_below((n - 1) as nat) + if self.showing((n - 1) as nat) {
                1nat
            } else {
                0nat
            }
        }
    }

    /// How many ranks have been revealed.
    pub open(crate) spec fn count_showing(self) -> nat {
        self.showing_below(NUM_RANKS as nat)
    }

    /// Whether the rank of index `i` may be revealed next: it is not showing
    /// and is not the true length.
    pub open(crate) spec fn candidate(self, true_length: PathLength, i: nat) -> bool {
        i < NUM_RANKS && !self.showing(i) && i != true_length.rank_of().index()
    }

    /// How many of the ranks of index below `n` may be revealed next.
    pub open(crate) spec fn candidates_below(self, true_length: PathLength, n: nat) -> nat
        decreases n,
    {
        if n == 0 {
            0
        } else {
            self.candidates_below(true_length, (n - 1) as nat) + if self.candidate(
                true_length,
                (n - 1) as nat,
            ) {
                1nat
            } else {
                0nat
            }
        }
    }

    /// Whether `self` is `before` with the rank of index `r` revealed too.
    pub open(crate) spec fn reveals(self, before: PathLengthInfo, r: nat) -> bool {
        forall|i: nat| #[trigger] self.showing(i) == (before.showing(i) || (i == r && r < NUM_RANKS))
    }

    /// How many ranks may be revealed next.
    pub open(crate) spec fn count_candidates(self, true_length: PathLength) -> nat {
        self.candidates_below(true_length, NUM_RANKS as nat)
    }

    /// Whether `self` is what a forecast against `true_length` makes of
    /// `before`: one more candidate revealed, or nothing changed once at
    /// most one candidate is left, so that the true length keeps company.
    pub open(crate) spec fn follows(self, before: PathLengthInfo, true_length: PathLength) -> bool {
        if before.count_candidates(true_length) <= 1 {
            self == before
        } else {
            exists|r: nat| before.candidate(true_length, r) && self.reveals(before, r)
        }
    }

    /// Whether the rank has been revealed.
    #[must_use]
    pub fn is_showing(&self, i: Rank) -> (b: bool)
        ensures
            b == self.showing(i.index()),
    {
        proof {
            use_type_invariant(i);
        }
        (self.0 >> (i.0 as u16)) & 1 == 1
    }

    /// Marks the rank as revealed.
    pub(crate) fn reveal_rank(&mut self, i: Rank)
        ensures
            final(self).reveals(*old(self), i.index()),
    {
        proof {
            use_type_invariant(i);
            use_type_invariant(&*self);
            lemma_set_bit(self.0, i.0 as u16, 0);
        }
        let ghost before = *self;
        self.0 = self.0 | (1u16 << (i.0 as u16));
        proof {
            assert forall|k: nat| #[trigger]
                self.showing(k) == (before.showing(k) || (k == i.index() && i.index()
                    < NUM_RANKS)) by {
                if k < NUM_RANKS {
                    lemma_set_bit(before.0, i.0 as u16, k as u16);
                }
            }
        }
    }

    /// The number of ranks that may be revealed next.
    pub fn num_candidates(&self, true_length: PathLength) -> (n: usize)
        ensures
            n == self.count_candidates(true_length),
            n <= NUM_RANKS,
    {
        let mut n: usize = 0;
        let mut i: u8 = 0;
        while i < 13
            invariant
                i <= 13,
                n == self.candidates_below(true_length, i as nat),
                n <= i,
            decreases 13 - i,
        {
            let r = Rank(i);
            if !self.is_showing(r) && r != true_length.0 {
                n += 1;
            }
            i += 1;
        }
        n
    }

    /// Reveals the candidate that has exactly `n` candidates of lower index
    /// before it, and returns it.
    ///
    /// Nothing is revealed when there is no such candidate, nor when at
    /// most one candidate is left: the last one stays hidden with the true
    /// length.
    pub fn reveal_nth(&mut self, true_length: PathLength, n: usize) -> (revealed: Option<Rank>)
        ensures
            revealed is Some <==> old(self).count_candidates(true_length) >= 2 && n < old(
                self,
            ).count_candidates(true_length),
            match revealed {
                Some(r) => {
                    &&& old(self).candidate(true_length, r.index())
                    &&& old(self).candidates_below(true_length, r.index()) == n
                    &&& final(self).reveals(*old(self), r.index())
                    &&& final(self).count_showing() == old(self).count_showing() + 1
                },
                None => *final(self) == *old(self),
            },
            n < old(self).count_candidates(true_length) ==> final(self).follows(
                *old(self),
                true_length,
            ),
    {
        if self.num_candidates(true_length) <= 1 {
            return None;
        }
        let mut remaining: usize = n;
        let mut i: u8 = 0;
        while i < 13
            invariant
                i <= 13,
                *self == *old(self),
                remaining + self.candidates_below(true_length, i as nat) == n,
                self.count_candidates(true_length) >= 2,
            decreases 13 - i,
        {
            let r = Rank(i);
            if !self.is_showing(r) && r != true_length.0 {
                if remaining == 0 {
                    proof {
                        self.lemma_candidates_monotone(true_length, (i + 1) as nat, NUM_RANKS as nat);
                    }
                    self.reveal_rank(r);
                    proof {
                        Self::lemma_reveal_counts(*old(self), *self, r.index(), NUM_RANKS as nat);
                    }
                    return Some(r);
                }
                remaining -= 1;
            }
            i += 1;
        }
        None
    }

    /// Reveals one candidate, chosen uniformly among them, and returns it.
    ///
    /// Nothing is revealed once at most one candidate is left: with the
    /// last of them gone the true length would stand alone.
    pub fn reveal_random(&mut self, true_length: PathLength) -> (revealed: Option<Rank>)
        ensures
            revealed is None <==> old(self).count_candidates(true_length) <= 1,
            match revealed {
                Some(r) => {
                    &&& old(self).candidate(true_length, r.index())
                    &&& final(self).reveals(*old(self), r.index())
                    &&& final(self).count_showing() == old(self).count_showing() + 1
                },
                None => *final(self) == *old(self),
            },
            final(self).follows(*old(self), true_length),
    {
        let candidates = self.num_candidates(true_length);
        if candidates <= 1 {
            return None;
        }
        let pick = random_in_range(0, candidates);
        self.reveal_nth(true_length, pick)
    }

    /// Counting candidates over a longer prefix of the ranks finds no fewer.
    proof fn lemma_candidates_monotone(self, true_length: PathLength, a: nat, b: nat)
        requires
            a <= b,
        ensures
            self.candidates_below(true_length, a) <= self.candidates_below(true_length, b),
        decreases b,
    {
        if a < b {
            self.lemma_candidates_monotone(true_length, a, (b - 1) as nat);
        }
    }

    /// Each rank is showing, a candidate, or the hidden true length.
    proof fn lemma_partition(self, true_length: PathLength, n: nat)
        requires
            n <= NUM_RANKS,
        ensures
            self.candidates_below(true_length, n) + self.showing_below(n) + (if
                true_length.rank_of().index() < n && !self.showing(
                true_length.rank_of().index(),
            ) {
                1nat
            } else {
                0nat
            }) == n,
        decreases n,
    {
        if n > 0 {
            self.lemma_partition(true_length, (n - 1) as nat);
        }
    }

    /// Revealing a hidden rank raises the count of revealed ranks by one.
    proof fn lemma_reveal_counts(before: PathLengthInfo, after: PathLengthInfo, r: nat, n: nat)
        requires
            after.reveals(before, r),
            !before.showing(r),
            r < NUM_RANKS,
        ensures
            after.showing_below(n) == before.showing_below(n) + (if r < n {
                1nat
            } else {
                0nat
            }),
        decreases n,
    {
        if n > 0 {
            Self::lemma_reveal_counts(before, after, r, (n - 1) as nat);
        }
    }

    /// The number of ranks that have been revealed.
    pub fn num_showing(&self) -> (n: usize)
        ensures
            n == self.count_showing(),
            n <= NUM_RANKS,
    {
        let mut n: usize = 0;
        let mut i: u8 = 0;
        while i < 13
            invariant
                i <= 13,
                n == self.showing_below(i as nat),
                n <= i,
            decreases 13 - i,
        {
            if (self.0 >> (i as u16)) & 1 == 1 {
                n += 1;
            }
            i += 1;
        }
        n
    }
}

/// Whether the tracker makes its step from `trail[k]` to `trail[k + 1]`.
pub open spec fn forecast_step(trail: Seq<PathLengthInfo>, k: int, true_length: PathLength) -> bool {
    trail[k + 1].follows(trail[k], true_length)
}

/// Forecasts never uncover the true length, and stop while it still has
/// company.
///
/// Let `trail` be the states of a tracker through any run of forecasts
/// against one true length, hidden at the start. Then the true length is
/// hidden in every state. A forecast leaves the tracker as it is exactly
/// when at most one other rank is hidden with the true length, that is
/// when eleven ranks or more are showing; so no forecast ever leads to a
/// state that shows twelve.
pub proof fn lemma_true_length_stays_hidden(trail: Seq<PathLengthInfo>, true_length: PathLength)
    requires
        trail.len() >= 1,
        true_length.rank_of().index() < NUM_RANKS,
        !trail[0].showing(true_length.rank_of().index()),
        forall|k: int| 0 <= k < trail.len() - 1 ==> #[trigger] forecast_step(trail, k, true_length),
    ensures
        forall|k: int|
            #![trigger trail[k]]
            0 <= k < trail.len() ==> {
                &&& !trail[k].showing(true_length.rank_of().index())
                &&& trail[k].count_showing() + trail[k].count_candidates(true_length) + 1
                    == NUM_RANKS
                &&& trail[k].count_showing() + 1 < NUM_RANKS || trail[k] == trail[0]
                &&& k + 1 < trail.len() ==> (trail[k + 1] == trail[k] <==> trail[k].count_showing()
                    + 2 >= NUM_RANKS)
            },
    decreases trail.len(),
{
    let hidden = true_length.rank_of().index();
    let n = trail.len() - 1;
    trail[0].lemma_partition(true_length, NUM_RANKS as nat);
    if n > 0 {
        let shorter = trail.drop_last();
        assert forall|k: int| 0 <= k < shorter.len() - 1 implies #[trigger] forecast_step(
            shorter,
            k,
            true_length,
        ) by {
            assert(forecast_step(trail, k, true_length));
        }
        lemma_true_length_stays_hidden(shorter, true_length);
        let before = trail[n - 1];
        let after = trail[n];
        assert(shorter[n - 1] == before);
        assert(forecast_step(trail, n - 1, true_length));
        after.lemma_partition(true_length, NUM_RANKS as nat);
        if before.count_candidates(true_length) >= 2 {
            let r = choose|r: nat| before.candidate(true_length, r) && after.reveals(before, r);
            PathLengthInfo::lemma_reveal_counts(before, after, r, NUM_RANKS as nat);
        }
        assert forall|k: int|
            #![trigger trail[k]]
            0 <= k < trail.len() implies {
            &&& !trail[k].showing(hidden)
            &&& trail[k].count_showing() + trail[k].count_candidates(true_length) + 1 == NUM_RANKS
            &&& trail[k].count_showing() + 1 < NUM_RANKS || trail[k] == trail[0]
            &&& k + 1 < trail.len() ==> (trail[k + 1] == trail[k] <==> trail[k].count_showing() + 2
                >= NUM_RANKS)
        } by {
            if k < n {
                assert(shorter[k] == trail[k]);
                if k + 1 < n {
                    assert(shorter[k + 1] == trail[k + 1]);
                }
            }
        }
    }
}

impl Default for PathLengthInfo {
    /// Nothing revealed.
    fn default() -> (info: PathLengthInfo)
        ensures
            forall|i: nat| !info.showing(i),
    {
        let info = PathLengthInfo(0);
        proof {
            assert forall|i: nat| !#[trigger] info.showing(i) by {
                if i < NUM_RANKS {
                    lemma_no_bit(i as u16);
                }
            }
        }
        info
    }
}

} // verus!
