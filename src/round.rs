//! One round of the count: which candidates are elected, or which one is
//! eliminated, and the record of the round.

use vstd::prelude::*;
use crate::models::{CandidateResultData, PassingCandidateResult, VotingRoundResult};
use crate::tally::{is_ranking, rank_candidates, DRAW_EPSILON};

verus! {

/// How many of the first `upto` flags are set.
pub open spec fn marked_upto(flags: Seq<bool>, upto: int) -> nat
    decreases upto,
{
    if upto <= 0 {
        0
    } else {
        marked_upto(flags, upto - 1) + if flags[upto - 1] {
            1nat
        } else {
            0nat
        }
    }
}

/// How many flags are set.
pub open spec fn marked(flags: Seq<bool>) -> nat {
    marked_upto(flags, flags.len() as int)
}

/// The lowest count among the first `upto` candidates that remain.
pub open spec fn lowest_upto(counts: Seq<u64>, remaining: Seq<bool>, upto: int) -> Option<u64>
    decreases upto,
{
    if upto <= 0 {
        None
    } else {
        let prev = lowest_upto(counts, remaining, upto - 1);
        if remaining[upto - 1] {
            match prev {
                Some(m) if m <= counts[upto - 1] => Some(m),
                _ => Some(counts[upto - 1]),
            }
        } else {
            prev
        }
    }
}

/// The lowest count among the remaining candidates.
pub open spec fn lowest(counts: Seq<u64>, remaining: Seq<bool>) -> Option<u64> {
    lowest_upto(counts, remaining, counts.len() as int)
}

/// Candidate `c` remains and its count is within `DRAW_EPSILON` of the
/// lowest count.
pub open spec fn in_draw(counts: Seq<u64>, remaining: Seq<bool>, c: int) -> bool {
    &&& 0 <= c < counts.len()
    &&& remaining[c]
    &&& lowest(counts, remaining) matches Some(m)
    &&& counts[c] <= m + DRAW_EPSILON
}

pub open spec fn draw_flags(counts: Seq<u64>, remaining: Seq<bool>) -> Seq<bool> {
    Seq::new(counts.len(), |c: int| in_draw(counts, remaining, c))
}

/// The candidates elected this round: every remaining one under forced
/// acceptance, else those that reach the quota.
pub open spec fn elected_flags(counts: Seq<u64>, remaining: Seq<bool>, quota: u64, forced: bool) -> Seq<bool> {
    Seq::new(counts.len(), |c: int| remaining[c] && (forced || counts[c] >= quota))
}

/// The entries of a round record list the candidates of `order` with their
/// names and counts, and the given selection and draw flags.
pub open spec fn lists_candidates(
    entries: Seq<PassingCandidateResult>,
    order: Seq<usize>,
    names: Seq<String>,
    counts: Seq<u64>,
    selected: Seq<bool>,
    draw: Seq<bool>,
) -> bool {
    &&& entries.len() == order.len()
    &&& forall|i: int|
        0 <= i < entries.len() ==> #[trigger] entries[i] == (PassingCandidateResult {
            data: CandidateResultData {
                name: names[order[i] as int],
                vote_count: counts[order[i] as int],
                is_draw: draw[order[i] as int],
            },
            is_selected: selected[order[i] as int],
        })
}

/// The record of a round in which the candidates marked in `elected` were
/// elected: every remaining candidate, ranked by count, with the elected
/// ones selected, and no dropped candidate.
pub open spec fn is_election_record(
    r: VotingRoundResult,
    round: int,
    names: Seq<String>,
    counts: Seq<u64>,
    remaining: Seq<bool>,
    elected: Seq<bool>,
) -> bool {
    &&& r.round == round
    &&& r.dropped_candidate is None
    &&& exists|order: Seq<usize>|
        is_ranking(order, counts, remaining) && lists_candidates(
            r.candidate_results@,
            order,
            names,
            counts,
            elected,
            Seq::new(counts.len(), |c: int| false),
        )
}

/// The record of a round in which candidate `d` was eliminated: every other
/// remaining candidate, ranked by count, none selected, with the draw flag
/// set on the members of a draw of two or more; and `d` as the dropped
/// candidate.
pub open spec fn is_elimination_record(
    r: VotingRoundResult,
    round: int,
    names: Seq<String>,
    counts: Seq<u64>,
    remaining: Seq<bool>,
    d: int,
) -> bool {
    let draw = draw_flags(counts, remaining);
    let contested = marked(draw) > 1;
    &&& r.round == round
    &&& r.dropped_candidate == Some(
        CandidateResultData { name: names[d], vote_count: counts[d], is_draw: contested },
    )
    &&& exists|order: Seq<usize>|
        is_ranking(order, counts, remaining.update(d, false)) && lists_candidates(
            r.candidate_results@,
            order,
            names,
            counts,
            Seq::new(counts.len(), |c: int| false),
            Seq::new(counts.len(), |c: int| draw[c] && contested),
        )
}

/// Counts the set flags.
pub fn count_marked(flags: &Vec<bool>) -> (k: usize)
    ensures
        k == marked(flags@),
{
    let mut k: usize = 0;
    let mut i: usize = 0;
    while i < flags.len()
        invariant
            i <= flags@.len(),
            k == marked_upto(flags@, i as int),
            k <= i,
        decreases flags@.len() - i,
    {
        if flags[i] {
            k = k + 1;
        }
        i = i + 1;
    }
    k
}

/// The lowest count among the remaining candidates.
pub fn lowest_count(counts: &Vec<u64>, remaining: &Vec<bool>) -> (r: Option<u64>)
    requires
        counts@.len() == remaining@.len(),
    ensures
        r == lowest(counts@, remaining@),
{
    let mut low: Option<u64> = None;
    let mut c: usize = 0;
    while c < counts.len()
        invariant
            counts@.len() == remaining@.len(),
            c <= counts@.len(),
            low == lowest_upto(counts@, remaining@, c as int),
        decreases counts@.len() - c,
    {
        if remaining[c] {
            low = match low {
                Some(m) if m <= counts[c] => Some(m),
                _ => Some(counts[c]),
            };
        }
        c = c + 1;
    }
    low
}

pub proof fn lemma_lowest_upto(counts: Seq<u64>, remaining: Seq<bool>, upto: int)
    requires
        0 <= upto <= counts.len(),
        counts.len() == remaining.len(),
    ensures
        lowest_upto(counts, remaining, upto) matches Some(m) ==> {
            &&& exists|c: int| 0 <= c < upto && remaining[c] && counts[c] == m
            &&& forall|c: int| 0 <= c < upto && remaining[c] ==> m <= counts[c]
        },
        lowest_upto(counts, remaining, upto) is None ==> forall|c: int|
            0 <= c < upto ==> !remaining[c],
    decreases upto,
{
    if upto > 0 {
        lemma_lowest_upto(counts, remaining, upto - 1);
    }
}

/// Every remaining candidate within `DRAW_EPSILON` of the lowest count.
pub fn draw_members(counts: &Vec<u64>, remaining: &Vec<bool>) -> (draw: Vec<bool>)
    requires
        counts@.len() == remaining@.len(),
    ensures
        draw@ == draw_flags(counts@, remaining@),
{
    let low = lowest_count(counts, remaining);
    let n = counts.len();
    let mut draw: Vec<bool> = Vec::new();
    let mut c: usize = 0;
    while c < n
        invariant
            n == counts@.len(),
            counts@.len() == remaining@.len(),
            low == lowest(counts@, remaining@),
            c <= n,
            draw@ =~= Seq::new(c as nat, |i: int| in_draw(counts@, remaining@, i)),
        decreases n - c,
    {
        let member = match low {
            Some(m) => remaining[c] && (counts[c] as u128) <= (m as u128) + (DRAW_EPSILON as u128),
            None => false,
        };
        draw.push(member);
        c = c + 1;
    }
    draw
}

/// The positions of the set flags, in increasing order.
pub fn flagged_indices(flags: &Vec<bool>) -> (v: Vec<usize>)
    ensures
        forall|i: int| 0 <= i < v@.len() ==> (v@[i] as int) < flags@.len() && flags@[v@[i] as int],
        forall|c: int| 0 <= c < flags@.len() && flags@[c] ==> v@.contains(c as usize),
        v@.len() == marked(flags@),
{
    let mut v: Vec<usize> = Vec::new();
    let mut c: usize = 0;
    while c < flags.len()
        invariant
            c <= flags@.len(),
            forall|i: int| 0 <= i < v@.len() ==> (v@[i] as int) < c && flags@[v@[i] as int],
            forall|d: int| 0 <= d < c && flags@[d] ==> v@.contains(d as usize),
            v@.len() == marked_upto(flags@, c as int),
        decreases flags@.len() - c,
    {
        let ghost old_v = v@;
        if flags[c] {
            v.push(c);
            assert(v@[v@.len() - 1] == c);
        }
        assert forall|d: int| 0 <= d < c + 1 && flags@[d] implies v@.contains(d as usize) by {
            if d < c {
                assert(old_v.contains(d as usize));
                let i = choose|i: int| 0 <= i < old_v.len() && old_v[i] == d as usize;
                assert(v@[i] == d as usize);
            }
        }
        c = c + 1;
    }
    v
}

/// The candidates elected this round.
pub fn elected_now(counts: &Vec<u64>, remaining: &Vec<bool>, quota: u64, forced: bool) -> (e: Vec<bool>)
    requires
        counts@.len() == remaining@.len(),
    ensures
        e@ == elected_flags(counts@, remaining@, quota, forced),
{
    let n = counts.len();
    let mut e: Vec<bool> = Vec::new();
    let mut c: usize = 0;
    while c < n
        invariant
            n == counts@.len(),
            counts@.len() == remaining@.len(),
            c <= n,
            e@ =~= Seq::new(c as nat, |i: int| remaining@[i] && (forced || counts@[i] >= quota)),
        decreases n - c,
    {
        e.push(remaining[c] && (forced || counts[c] >= quota));
        c = c + 1;
    }
    e
}

/// The entries of a round record for the candidates of `order`.
pub fn round_entries(
    order: &Vec<usize>,
    names: &Vec<String>,
    counts: &Vec<u64>,
    selected: &Vec<bool>,
    draw: &Vec<bool>,
) -> (entries: Vec<PassingCandidateResult>)
    requires
        names@.len() == counts@.len(),
        selected@.len() == counts@.len(),
        draw@.len() == counts@.len(),
        forall|i: int| 0 <= i < order@.len() ==> (order@[i] as int) < counts@.len(),
    ensures
        lists_candidates(entries@, order@, names@, counts@, selected@, draw@),
{
    let mut entries: Vec<PassingCandidateResult> = Vec::new();
    let mut i: usize = 0;
    while i < order.len()
        invariant
            names@.len() == counts@.len(),
            selected@.len() == counts@.len(),
            draw@.len() == counts@.len(),
            forall|j: int| 0 <= j < order@.len() ==> (order@[j] as int) < counts@.len(),
            i <= order@.len(),
            entries@.len() == i,
            forall|j: int|
                0 <= j < i ==> #[trigger] entries@[j] == (PassingCandidateResult {
                    data: CandidateResultData {
                        name: names@[order@[j] as int],
                        vote_count: counts@[order@[j] as int],
                        is_draw: draw@[order@[j] as int],
                    },
                    is_selected: selected@[order@[j] as int],
                }),
        decreases order@.len() - i,
    {
        let c = order[i];
        let entry = PassingCandidateResult {
            data: CandidateResultData {
                name: names[c].clone(),
                vote_count: counts[c],
                is_draw: draw[c],
            },
            is_selected: selected[c],
        };
        entries.push(entry);
        i = i + 1;
    }
    entries
}

pub proof fn lemma_marked_upto_bound(flags: Seq<bool>, upto: int)
    requires
        0 <= upto <= flags.len(),
    ensures
        marked_upto(flags, upto) <= upto,
        marked_upto(flags, upto) > 0 ==> exists|c: int| 0 <= c < upto && flags[c],
        (exists|c: int| 0 <= c < upto && flags[c]) ==> marked_upto(flags, upto) > 0,
    decreases upto,
{
    if upto > 0 {
        lemma_marked_upto_bound(flags, upto - 1);
    }
}

/// Clearing the flags of `removed`, all of them set in `flags`, lowers the
/// number of set flags by the number of removed ones.
pub proof fn lemma_marked_remove(flags: Seq<bool>, removed: Seq<bool>, upto: int)
    requires
        flags.len() == removed.len(),
        0 <= upto <= flags.len(),
        forall|c: int| 0 <= c < flags.len() && removed[c] ==> flags[c],
    ensures
        marked_upto(Seq::new(flags.len(), |c: int| flags[c] && !removed[c]), upto) + marked_upto(
            removed,
            upto,
        ) == marked_upto(flags, upto),
    decreases upto,
{
    if upto > 0 {
        lemma_marked_remove(flags, removed, upto - 1);
    }
}

/// Clearing one set flag lowers the number of set flags by one.
pub proof fn lemma_marked_clear_one(flags: Seq<bool>, d: int, upto: int)
    requires
        0 <= d < flags.len(),
        flags[d],
        0 <= upto <= flags.len(),
    ensures
        marked_upto(flags.update(d, false), upto) + (if d < upto {
            1nat
        } else {
            0nat
        }) == marked_upto(flags, upto),
    decreases upto,
{
    if upto > 0 {
        lemma_marked_clear_one(flags, d, upto - 1);
    }
}

/// When some candidate remains, some candidate is in the draw for the
/// lowest count.
pub proof fn lemma_draw_nonempty(counts: Seq<u64>, remaining: Seq<bool>)
    requires
        counts.len() == remaining.len(),
        marked(remaining) > 0,
    ensures
        marked(draw_flags(counts, remaining)) > 0,
{
    lemma_marked_upto_bound(remaining, remaining.len() as int);
    let c0 = choose|c: int| 0 <= c < remaining.len() && remaining[c];
    lemma_lowest_upto(counts, remaining, counts.len() as int);
    let m = lowest(counts, remaining)->Some_0;
    let c1 = choose|c: int| 0 <= c < counts.len() && remaining[c] && counts[c] == m;
    assert(draw_flags(counts, remaining)[c1]);
    lemma_marked_upto_bound(draw_flags(counts, remaining), counts.len() as int);
}

} // verus!
