//! The STV tabulator.
//!
//! Ballots are encoded as sequences of candidate indices. Weights are held in
//! fixed point: one whole vote is `VOTE_UNIT` units, so every count, quota and
//! fragment weight is an exact integer and a count never depends on the order
//! in which fragments were added.
//!
//! Each non-empty ballot is one fragment for the whole tabulation. The
//! fragment is held by the first candidate on the ballot that is still in the
//! ledger; when there is none the fragment is exhausted. The ledger therefore
//! consists of the set of remaining candidates and the current weight of
//! every ballot's fragment.

use vstd::prelude::*;

verus! {

/// Fixed-point units in one whole vote.
pub const VOTE_UNIT: u64 = 1_000_000_000;

/// Two counts this close to each other (in units) are treated as equal when
/// looking for the lowest count.
pub const DRAW_EPSILON: u64 = 1_000;

/// The first candidate listed on `ballot` that is still remaining.
pub open spec fn first_remaining(ballot: Seq<usize>, remaining: Seq<bool>) -> Option<usize>
    decreases ballot.len(),
{
    if ballot.len() == 0 {
        None
    } else if (ballot[0] as int) < remaining.len() && remaining[ballot[0] as int] {
        Some(ballot[0])
    } else {
        first_remaining(ballot.drop_first(), remaining)
    }
}

/// Scans `ballot` for the first candidate still in the ledger.
pub fn find_next_preference(remaining: &Vec<bool>, ballot: &Vec<usize>) -> (r: Option<usize>)
    ensures
        r == first_remaining(ballot@, remaining@),
{
    let mut k: usize = 0;
    assert(ballot@.subrange(0, ballot@.len() as int) =~= ballot@);
    while k < ballot.len()
        invariant
            k <= ballot@.len(),
            first_remaining(ballot@, remaining@) == first_remaining(
                ballot@.subrange(k as int, ballot@.len() as int),
                remaining@,
            ),
        decreases ballot@.len() - k,
    {
        let c = ballot[k];
        let rest = Ghost(ballot@.subrange(k as int, ballot@.len() as int));
        assert(rest@.drop_first() =~= ballot@.subrange(k + 1, ballot@.len() as int));
        if c < remaining.len() && remaining[c] {
            return Some(c);
        }
        k = k + 1;
    }
    assert(ballot@.subrange(k as int, ballot@.len() as int).len() == 0);
    None
}

pub proof fn lemma_first_remaining_is_remaining(ballot: Seq<usize>, remaining: Seq<bool>)
    ensures
        first_remaining(ballot, remaining) matches Some(c) ==> {
            &&& (c as int) < remaining.len()
            &&& remaining[c as int]
            &&& ballot.contains(c)
        },
    decreases ballot.len(),
{
    if ballot.len() > 0 {
        lemma_first_remaining_is_remaining(ballot.drop_first(), remaining);
        if let Some(c) = first_remaining(ballot.drop_first(), remaining) {
            assert(ballot[ballot.drop_first().index_of(c) + 1] == c);
        }
    }
}

/// What the fragment of one ballot, of weight `weight`, adds to the count of
/// candidate `c`.
pub open spec fn held_weight(ballot: Seq<usize>, remaining: Seq<bool>, weight: u64, c: int) -> int {
    if first_remaining(ballot, remaining) == Some(c as usize) && c >= 0 {
        weight as int
    } else {
        0
    }
}

/// The count of candidate `c` over the first `upto` ballots.
pub open spec fn count_upto(
    ballots: Seq<Seq<usize>>,
    remaining: Seq<bool>,
    weights: Seq<u64>,
    c: int,
    upto: int,
) -> int
    decreases upto,
{
    if upto <= 0 {
        0
    } else {
        count_upto(ballots, remaining, weights, c, upto - 1) + held_weight(
            ballots[upto - 1],
            remaining,
            weights[upto - 1],
            c,
        )
    }
}

pub proof fn lemma_count_upto_bounds(
    ballots: Seq<Seq<usize>>,
    remaining: Seq<bool>,
    weights: Seq<u64>,
    c: int,
    upto: int,
)
    requires
        0 <= upto <= weights.len(),
        forall|b: int| 0 <= b < weights.len() ==> weights[b] <= VOTE_UNIT,
    ensures
        0 <= count_upto(ballots, remaining, weights, c, upto) <= upto * VOTE_UNIT,
    decreases upto,
{
    if upto > 0 {
        lemma_count_upto_bounds(ballots, remaining, weights, c, upto - 1);
    }
}

/// The vote ledger: the encoded ballots, which candidates remain, and the
/// current weight of each ballot's fragment.
pub struct Ledger {
    pub ballots: Vec<Vec<usize>>,
    pub remaining: Vec<bool>,
    pub weights: Vec<u64>,
}

impl Ledger {
    pub open spec fn ballot_seqs(&self) -> Seq<Seq<usize>> {
        self.ballots.deep_view()
    }

    pub open spec fn num_candidates(&self) -> int {
        self.remaining@.len() as int
    }

    pub open spec fn wf(&self) -> bool {
        &&& self.weights@.len() == self.ballots@.len()
        &&& self.ballots@.len() * VOTE_UNIT <= u64::MAX
        &&& forall|b: int| 0 <= b < self.weights@.len() ==> self.weights@[b] <= VOTE_UNIT
    }

    /// The current count of candidate `c`: the sum of the weights of the
    /// fragments it holds.
    pub open spec fn count(&self, c: int) -> int {
        count_upto(
            self.ballot_seqs(),
            self.remaining@,
            self.weights@,
            c,
            self.ballots@.len() as int,
        )
    }

    /// `counts` lists the current count of every candidate.
    pub open spec fn counts_are(&self, counts: Seq<u64>) -> bool {
        &&& counts.len() == self.num_candidates()
        &&& forall|c: int| 0 <= c < counts.len() ==> counts[c] as int == self.count(c)
    }

    pub proof fn lemma_count_bounds(&self, c: int)
        requires
            self.wf(),
        ensures
            0 <= self.count(c) <= self.ballots@.len() * VOTE_UNIT,
    {
        lemma_count_upto_bounds(
            self.ballot_seqs(),
            self.remaining@,
            self.weights@,
            c,
            self.ballots@.len() as int,
        );
    }

    /// The weight of ballot `b`'s fragment after the candidates marked in
    /// `elected` were elected: a fragment held by one of them is rescaled by
    /// the Gregory rule, every other fragment keeps its weight.
    pub open spec fn weight_after_election(&self, elected: Seq<bool>, quota: int, b: int) -> u64 {
        match first_remaining(self.ballot_seqs()[b], self.remaining@) {
            Some(h) => if (h as int) < elected.len() && elected[h as int] {
                rescaled(self.weights@[b], self.count(h as int), quota) as u64
            } else {
                self.weights@[b]
            },
            None => self.weights@[b],
        }
    }

    /// Computes the current count of every candidate in one pass over the
    /// ballots.
    pub fn current_counts(&self) -> (counts: Vec<u64>)
        requires
            self.wf(),
        ensures
            self.counts_are(counts@),
    {
        let n = self.remaining.len();
        let mut counts: Vec<u64> = Vec::new();
        let mut c: usize = 0;
        while c < n
            invariant
                n == self.remaining@.len(),
                c <= n,
                counts@.len() == c,
                forall|i: int| 0 <= i < c ==> counts@[i] == 0,
            decreases n - c,
        {
            counts.push(0);
            c = c + 1;
        }
        let nb = self.ballots.len();
        let mut b: usize = 0;
        while b < nb
            invariant
                self.wf(),
                nb == self.ballots@.len(),
                n == self.remaining@.len(),
                b <= nb,
                counts@.len() == n,
                forall|i: int|
                    0 <= i < n ==> counts@[i] as int == count_upto(
                        self.ballot_seqs(),
                        self.remaining@,
                        self.weights@,
                        i,
                        b as int,
                    ),
            decreases nb - b,
        {
            let ballot = &self.ballots[b];
            assert(self.ballot_seqs()[b as int] == ballot@);
            let h = find_next_preference(&self.remaining, ballot);
            proof {
                lemma_first_remaining_is_remaining(ballot@, self.remaining@);
            }
            if let Some(hc) = h {
                proof {
                    lemma_count_upto_bounds(
                        self.ballot_seqs(),
                        self.remaining@,
                        self.weights@,
                        hc as int,
                        b + 1,
                    );
                    assert(b + 1 <= nb);
                    assert((b + 1) * VOTE_UNIT <= nb * VOTE_UNIT) by (nonlinear_arith)
                        requires
                            b + 1 <= nb,
                    ;
                }
                let w = self.weights[b];
                counts.set(hc, counts[hc] + w);
            }
            b = b + 1;
        }
        counts
    }
}

/// What an elected candidate holds beyond the quota (never negative).
pub open spec fn surplus(count: int, quota: int) -> int {
    if count > quota {
        count - quota
    } else {
        0
    }
}

/// The new weight of a fragment of weight `weight` whose holder was elected
/// with `count`: `weight / count * surplus`, rounded down to a whole unit.
pub open spec fn rescaled(weight: u64, count: int, quota: int) -> int {
    if count <= 0 {
        0
    } else {
        (weight as int) * surplus(count, quota) / count
    }
}

pub proof fn lemma_rescaled_bounds(weight: u64, count: int, quota: int)
    requires
        quota >= 0,
    ensures
        0 <= rescaled(weight, count, quota) <= weight,
{
    if count > 0 {
        let s = surplus(count, quota);
        assert(0 <= s <= count);
        assert(0 <= (weight as int) * s / count <= weight) by (nonlinear_arith)
            requires
                0 <= s <= count,
                count > 0,
                weight >= 0,
        ;
    }
}

/// Computes `rescaled(weight, count, quota)`.
fn rescale(weight: u64, count: u64, quota: u64) -> (r: u64)
    ensures
        r as int == rescaled(weight, count as int, quota as int),
{
    proof {
        lemma_rescaled_bounds(weight, count as int, quota as int);
    }
    if count == 0 {
        return 0;
    }
    let s: u64 = if count > quota {
        count - quota
    } else {
        0
    };
    assert((weight as u128) * (s as u128) <= 0xffff_ffff_ffff_ffffu128 * 0xffff_ffff_ffff_ffffu128)
        by (nonlinear_arith);
    let r = (weight as u128) * (s as u128) / (count as u128);
    r as u64
}

impl Ledger {
    /// Removes every candidate marked in `elected` from the ledger and
    /// rescales the fragments they held; each fragment then passes to the
    /// next remaining preference on its ballot, or is exhausted.
    pub fn transfer_surplus(&mut self, elected: &Vec<bool>, counts: &Vec<u64>, quota: u64)
        requires
            old(self).wf(),
            old(self).counts_are(counts@),
            elected@.len() == old(self).num_candidates(),
        ensures
            final(self).wf(),
            final(self).ballots@ == old(self).ballots@,
            final(self).remaining@ == Seq::new(
                old(self).remaining@.len(),
                |c: int| old(self).remaining@[c] && !elected@[c],
            ),
            final(self).weights@ == Seq::new(
                old(self).weights@.len(),
                |b: int| old(self).weight_after_election(elected@, quota as int, b),
            ),
    {
        let ghost start = *self;
        let nb = self.ballots.len();
        let mut b: usize = 0;
        while b < nb
            invariant
                start.wf(),
                start.counts_are(counts@),
                elected@.len() == start.num_candidates(),
                self.ballots == start.ballots,
                self.remaining == start.remaining,
                nb == start.ballots@.len(),
                b <= nb,
                self.weights@.len() == nb,
                forall|i: int|
                    0 <= i < b ==> self.weights@[i] == start.weight_after_election(
                        elected@,
                        quota as int,
                        i,
                    ),
                forall|i: int| b <= i < nb ==> self.weights@[i] == start.weights@[i],
            decreases nb - b,
        {
            let ballot = &self.ballots[b];
            assert(start.ballot_seqs()[b as int] == ballot@);
            let h = find_next_preference(&self.remaining, ballot);
            proof {
                lemma_first_remaining_is_remaining(ballot@, self.remaining@);
            }
            if let Some(hc) = h {
                if elected[hc] {
                    let w = self.weights[b];
                    let nw = rescale(w, counts[hc], quota);
                    self.weights.set(b, nw);
                }
            }
            b = b + 1;
        }
        let n = self.remaining.len();
        let mut next: Vec<bool> = Vec::new();
        let mut c: usize = 0;
        while c < n
            invariant
                n == start.remaining@.len(),
                self.remaining == start.remaining,
                elected@.len() == n,
                c <= n,
                next@ =~= Seq::new(c as nat, |i: int| start.remaining@[i] && !elected@[i]),
            decreases n - c,
        {
            next.push(self.remaining[c] && !elected[c]);
            c = c + 1;
        }
        self.remaining = next;
        assert forall|i: int| 0 <= i < nb implies self.weights@[i] <= VOTE_UNIT by {
            match first_remaining(start.ballot_seqs()[i], start.remaining@) {
                Some(h) => lemma_rescaled_bounds(start.weights@[i], start.count(h as int), quota as int),
                None => {},
            }
        }
        assert(self.remaining@ =~= Seq::new(n as nat, |c: int| start.remaining@[c] && !elected@[c]));
        assert(self.weights@ =~= Seq::new(nb as nat, |i: int| start.weight_after_election(elected@, quota as int, i)));
    }

    /// Removes candidate `d` from the ledger. Its fragments keep their weight
    /// and pass to the next remaining preference on their ballots.
    pub fn eliminate(&mut self, d: usize)
        requires
            old(self).wf(),
            d < old(self).num_candidates(),
        ensures
            final(self).wf(),
            final(self).ballots@ == old(self).ballots@,
            final(self).weights@ == old(self).weights@,
            final(self).remaining@ == old(self).remaining@.update(d as int, false),
    {
        self.remaining.set(d, false);
    }
}

/// `x` is listed before `y`: the higher count first, and between equal
/// counts the candidate that comes first in the candidate list.
pub open spec fn ranks_before(counts: Seq<u64>, x: usize, y: usize) -> bool {
    ||| counts[x as int] > counts[y as int]
    ||| (counts[x as int] == counts[y as int] && x < y)
}

/// `order` lists each candidate marked in `members` exactly once, and
/// nothing else, in `ranks_before` order. Only one sequence has this
/// property.
pub open spec fn is_ranking(order: Seq<usize>, counts: Seq<u64>, members: Seq<bool>) -> bool {
    &&& order.no_duplicates()
    &&& forall|i: int|
        0 <= i < order.len() ==> (order[i] as int) < members.len() && members[order[i] as int]
    &&& forall|c: int| 0 <= c < members.len() && members[c] ==> order.contains(c as usize)
    &&& forall|i: int, j: int|
        0 <= i < j < order.len() ==> ranks_before(counts, #[trigger] order[i], #[trigger] order[j])
}

/// How many of the first `upto` candidates are members not yet placed.
spec fn unplaced_upto(members: Seq<bool>, placed: Seq<bool>, upto: int) -> nat
    decreases upto,
{
    if upto <= 0 {
        0
    } else {
        unplaced_upto(members, placed, upto - 1) + if members[upto - 1] && !placed[upto - 1] {
            1nat
        } else {
            0nat
        }
    }
}

proof fn lemma_place_one(members: Seq<bool>, placed: Seq<bool>, x: int, upto: int)
    requires
        0 <= x < members.len(),
        members.len() == placed.len(),
        0 <= upto <= members.len(),
        members[x],
        !placed[x],
    ensures
        unplaced_upto(members, placed.update(x, true), upto) + (if x < upto {
            1nat
        } else {
            0nat
        }) == unplaced_upto(members, placed, upto),
    decreases upto,
{
    if upto > 0 {
        lemma_place_one(members, placed, x, upto - 1);
    }
}

/// Orders the candidates marked in `members` by count, highest first.
pub fn rank_candidates(counts: &Vec<u64>, members: &Vec<bool>) -> (order: Vec<usize>)
    requires
        counts@.len() == members@.len(),
    ensures
        is_ranking(order@, counts@, members@),
{
    let n = members.len();
    let mut placed: Vec<bool> = Vec::new();
    let mut k: usize = 0;
    while k < n
        invariant
            k <= n,
            placed@.len() == k,
            forall|i: int| 0 <= i < k ==> !placed@[i],
        decreases n - k,
    {
        placed.push(false);
        k = k + 1;
    }
    let mut order: Vec<usize> = Vec::new();
    loop
        invariant
            n == members@.len(),
            counts@.len() == n,
            placed@.len() == n,
            order@.no_duplicates(),
            forall|i: int| 0 <= i < order@.len() ==> (order@[i] as int) < n && members@[order@[i] as int],
            forall|c: int| 0 <= c < n ==> (placed@[c] <==> order@.contains(c as usize)),
            forall|i: int, j: int|
                0 <= i < j < order@.len() ==> ranks_before(counts@, #[trigger] order@[i], #[trigger] order@[j]),
            forall|i: int, c: int|
                #![trigger order@[i], placed@[c]]
                0 <= i < order@.len() && 0 <= c < n && members@[c] && !placed@[c] ==> ranks_before(
                    counts@,
                    order@[i],
                    c as usize,
                ),
        ensures
            forall|c: int| 0 <= c < n && members@[c] ==> order@.contains(c as usize),
        decreases unplaced_upto(members@, placed@, n as int),
    {
        let mut best: Option<usize> = None;
        let mut c: usize = 0;
        while c < n
            invariant
                n == members@.len(),
                counts@.len() == n,
                placed@.len() == n,
                c <= n,
                best matches Some(x) ==> x < c && members@[x as int] && !placed@[x as int],
                best is None ==> forall|d: int| 0 <= d < c ==> !(members@[d] && !placed@[d]),
                best matches Some(x) ==> forall|d: int|
                    0 <= d < c && members@[d] && !placed@[d] && d != x ==> ranks_before(
                        counts@,
                        x,
                        d as usize,
                    ),
            decreases n - c,
        {
            if members[c] && !placed[c] {
                match best {
                    None => {
                        best = Some(c);
                    },
                    Some(x) => {
                        if counts[c] > counts[x] {
                            best = Some(c);
                        }
                    },
                }
            }
            c = c + 1;
        }
        match best {
            None => {
                assert forall|d: int| 0 <= d < n && members@[d] implies order@.contains(d as usize) by {
                    assert(placed@[d]);
                }
                break ;
            },
            Some(x) => {
                proof {
                    lemma_place_one(members@, placed@, x as int, n as int);
                }
                let ghost old_order = order@;
                placed.set(x, true);
                order.push(x);
                assert(order@.last() == x);
                assert forall|c: int| 0 <= c < n implies (placed@[c] <==> order@.contains(c as usize)) by {
                    if c == x {
                        assert(order@[old_order.len() as int] == x);
                    } else if old_order.contains(c as usize) {
                        let i = choose|i: int| 0 <= i < old_order.len() && old_order[i] == c as usize;
                        assert(order@[i] == c as usize);
                    }
                }
            },
        }
    }
    order
}

} // verus!
