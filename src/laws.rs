//! Properties of the tabulation, stated over the same spec functions as the
//! contracts and proved.

use vstd::prelude::*;
use crate::models::{PassingCandidateResult, VotingRoundResult};
use crate::round::{
    draw_flags, elected_flags, in_draw, is_elimination_record, lemma_marked_remove, lists_candidates,
    marked, marked_upto,
};
use crate::stv::{
    counts_of, finished, follows, forced_acceptance, is_initial_ledger, is_round, lemma_first_round,
    lemma_marked_all, names_unique, nonempty_upto, quota_units, selected_names, valid_ballot_count,
    winners_of,
};
use crate::tally::{
    count_upto, first_remaining, held_weight, is_ranking, ranks_before, rescaled, surplus, Ledger,
    VOTE_UNIT,
};

verus! {

/// A ballot none of whose candidates remains is exhausted: it adds nothing
/// to any count, and it stays exhausted once more candidates have left.
pub proof fn law_exhausted_fragment_counts_for_nothing(
    ballot: Seq<usize>,
    remaining: Seq<bool>,
    later: Seq<bool>,
    weight: u64,
    c: int,
)
    requires
        first_remaining(ballot, remaining) is None,
        later.len() == remaining.len(),
        forall|i: int| 0 <= i < later.len() && later[i] ==> remaining[i],
    ensures
        held_weight(ballot, remaining, weight, c) == 0,
        first_remaining(ballot, later) is None,
        held_weight(ballot, later, weight, c) == 0,
    decreases ballot.len(),
{
    if ballot.len() > 0 {
        law_exhausted_fragment_counts_for_nothing(ballot.drop_first(), remaining, later, weight, c);
    }
}

/// Some entry of a round record is about candidate `name`.
pub open spec fn lists_name(entries: Seq<PassingCandidateResult>, name: String) -> bool {
    exists|i: int| 0 <= i < entries.len() && (#[trigger] entries[i]).data.name == name
}

/// With at least as many seats as candidates, the first round accepts every
/// candidate at once and is the only round: no candidate is eliminated.
pub proof fn law_enough_seats_accepts_all_at_once(
    names: Seq<String>,
    votes: Seq<Vec<String>>,
    l: Ledger,
    quota: u64,
    seats: nat,
    rounds: Seq<VotingRoundResult>,
)
    requires
        is_initial_ledger(l, names, votes),
        names.len() >= 1,
        seats >= names.len(),
        follows(names, l, quota, seats, 0, 1, rounds),
    ensures
        rounds.len() == 1,
        rounds[0].dropped_candidate is None,
        forall|i: int|
            0 <= i < rounds[0].candidate_results@.len() ==> (#[trigger] rounds[0].candidate_results@[i]).is_selected,
        forall|c: int|
            0 <= c < names.len() ==> lists_name(rounds[0].candidate_results@, #[trigger] names[c]),
{
    let n = names.len();
    lemma_marked_all(n as int);
    assert(l.remaining@ =~= Seq::new(n, |c: int| true));
    assert(!finished(l, 0, seats));
    assert(rounds.len() > 0);
    let (next, newly) = lemma_first_round(names, l, quota, seats, 0, 1, rounds);
    let counts = counts_of(l);
    assert(forced_acceptance(l, 0, seats));
    let e = elected_flags(counts, l.remaining@, quota, true);
    assert(e =~= l.remaining@);
    lemma_marked_remove(l.remaining@, e, n as int);
    assert(next.remaining@ =~= Seq::new(n, |c: int| l.remaining@[c] && !e[c]));
    assert(finished(next, newly, seats));
    if rounds.len() > 1 {
        assert(!finished(next, newly, seats));
    }
    let order = choose|order: Seq<usize>|
        crate::tally::is_ranking(order, counts, l.remaining@) && crate::round::lists_candidates(
            rounds[0].candidate_results@,
            order,
            names,
            counts,
            e,
            Seq::new(counts.len(), |c: int| false),
        );
    assert forall|i: int| 0 <= i < rounds[0].candidate_results@.len() implies (
    #[trigger] rounds[0].candidate_results@[i]).is_selected by {
        assert(e[order[i] as int]);
    }
    assert forall|c: int| 0 <= c < names.len() implies lists_name(
        rounds[0].candidate_results@,
        #[trigger] names[c],
    ) by {
        assert(l.remaining.len() == l.remaining@.len());
        assert(l.remaining@[c]);
        assert(order.contains(c as usize));
        let i = choose|i: int| 0 <= i < order.len() && order[i] == c as usize;
        assert(rounds[0].candidate_results@[i].data.name == names[c]);
    }
}

/// Candidate `name` is elected in round record `r`, or dropped in it.
pub open spec fn resolved_in(r: VotingRoundResult, name: String) -> bool {
    ||| exists|i: int|
        0 <= i < r.candidate_results@.len() && (#[trigger] r.candidate_results@[i]).is_selected
            && r.candidate_results@[i].data.name == name
    ||| r.dropped_candidate matches Some(d) && d.name == name
}

/// Candidate `name` is listed in round record `r`, among the contesting
/// candidates or as the dropped one.
pub open spec fn appears_in(r: VotingRoundResult, name: String) -> bool {
    ||| lists_name(r.candidate_results@, name)
    ||| r.dropped_candidate matches Some(d) && d.name == name
}

/// Every candidate listed in a round record remains in the ledger the round
/// was played on, and every candidate elected or dropped in it has left the
/// ledger after it.
proof fn lemma_round_lists_remaining(
    names: Seq<String>,
    l: Ledger,
    quota: u64,
    seats: nat,
    elected: nat,
    round: int,
    r: VotingRoundResult,
    next: Ledger,
    newly: nat,
    c: int,
)
    requires
        names_unique(names),
        names.len() == l.remaining@.len(),
        0 <= c < names.len(),
        is_round(names, l, quota, seats, elected, round, r, next, newly),
    ensures
        appears_in(r, names[c]) ==> l.remaining@[c],
        resolved_in(r, names[c]) ==> !next.remaining@[c],
        !l.remaining@[c] ==> !next.remaining@[c],
        next.remaining@.len() == l.remaining@.len(),
{
    let counts = counts_of(l);
    let e = elected_flags(counts, l.remaining@, quota, forced_acceptance(l, elected, seats));
    assert(l.remaining.len() == l.remaining@.len());
    if marked(e) > 0 {
        let order = choose|order: Seq<usize>|
            is_ranking(order, counts, l.remaining@) && lists_candidates(
                r.candidate_results@,
                order,
                names,
                counts,
                e,
                Seq::new(counts.len(), |c: int| false),
            );
        if lists_name(r.candidate_results@, names[c]) {
            let i = choose|i: int|
                0 <= i < r.candidate_results@.len() && (#[trigger] r.candidate_results@[i]).data.name
                    == names[c];
            let o = order[i] as int;
            assert(names[o] == names[c]);
            if o != c {
                if o < c {
                    assert(names[o]@ != names[c]@);
                } else {
                    assert(names[c]@ != names[o]@);
                }
            }
        }
        if resolved_in(r, names[c]) {
            let i = choose|i: int|
                0 <= i < r.candidate_results@.len() && (#[trigger] r.candidate_results@[i]).is_selected
                    && r.candidate_results@[i].data.name == names[c];
            let o = order[i] as int;
            assert(names[o] == names[c]);
            if o != c {
                if o < c {
                    assert(names[o]@ != names[c]@);
                } else {
                    assert(names[c]@ != names[o]@);
                }
            }
            assert(e[c]);
        }
    } else {
        let d = choose|d: int|
            {
                &&& in_draw(counts, l.remaining@, d)
                &&& next.ballots@ == l.ballots@
                &&& next.weights@ == l.weights@
                &&& next.remaining@ == l.remaining@.update(d, false)
                &&& is_elimination_record(r, round, names, counts, l.remaining@, d)
            };
        let order = choose|order: Seq<usize>|
            is_ranking(order, counts, l.remaining@.update(d, false)) && lists_candidates(
                r.candidate_results@,
                order,
                names,
                counts,
                Seq::new(counts.len(), |c: int| false),
                Seq::new(counts.len(), |c: int| draw_flags(counts, l.remaining@)[c] && marked(draw_flags(counts, l.remaining@)) > 1),
            );
        if r.dropped_candidate matches Some(dr) && dr.name == names[c] {
            assert(names[d] == names[c]);
            if d != c {
                if d < c {
                    assert(names[d]@ != names[c]@);
                } else {
                    assert(names[c]@ != names[d]@);
                }
            }
        }
        if lists_name(r.candidate_results@, names[c]) {
            let i = choose|i: int|
                0 <= i < r.candidate_results@.len() && (#[trigger] r.candidate_results@[i]).data.name
                    == names[c];
            let o = order[i] as int;
            assert(names[o] == names[c]);
            if o != c {
                if o < c {
                    assert(names[o]@ != names[c]@);
                } else {
                    assert(names[c]@ != names[o]@);
                }
            }
        }
    }
}

/// A candidate that has left the ledger appears in no later round.
proof fn lemma_left_candidate_never_listed(
    names: Seq<String>,
    l: Ledger,
    quota: u64,
    seats: nat,
    elected: nat,
    round: int,
    rounds: Seq<VotingRoundResult>,
    c: int,
)
    requires
        names_unique(names),
        names.len() == l.remaining@.len(),
        0 <= c < names.len(),
        !l.remaining@[c],
        follows(names, l, quota, seats, elected, round, rounds),
    ensures
        forall|j: int| 0 <= j < rounds.len() ==> !appears_in(#[trigger] rounds[j], names[c]),
    decreases rounds.len(),
{
    if rounds.len() > 0 {
        let (next, newly) = lemma_first_round(names, l, quota, seats, elected, round, rounds);
        lemma_round_lists_remaining(names, l, quota, seats, elected, round, rounds[0], next, newly, c);
        lemma_left_candidate_never_listed(
            names,
            next,
            quota,
            seats,
            elected + newly,
            round + 1,
            rounds.drop_first(),
            c,
        );
        assert forall|j: int| 0 <= j < rounds.len() implies !appears_in(#[trigger] rounds[j], names[c]) by {
            if j > 0 {
                assert(rounds[j] == rounds.drop_first()[j - 1]);
            }
        }
    }
}

/// Once a candidate is elected or eliminated in a round, no later round
/// lists it.
pub proof fn law_resolved_candidate_leaves_the_count(
    names: Seq<String>,
    l: Ledger,
    quota: u64,
    seats: nat,
    elected: nat,
    round: int,
    rounds: Seq<VotingRoundResult>,
    i: int,
    j: int,
    c: int,
)
    requires
        names_unique(names),
        names.len() == l.remaining@.len(),
        follows(names, l, quota, seats, elected, round, rounds),
        0 <= i < j < rounds.len(),
        0 <= c < names.len(),
        resolved_in(rounds[i], names[c]),
    ensures
        !appears_in(rounds[j], names[c]),
    decreases i,
{
    let (next, newly) = lemma_first_round(names, l, quota, seats, elected, round, rounds);
    lemma_round_lists_remaining(names, l, quota, seats, elected, round, rounds[0], next, newly, c);
    assert(rounds[j] == rounds.drop_first()[j - 1]);
    if i == 0 {
        lemma_left_candidate_never_listed(
            names,
            next,
            quota,
            seats,
            elected + newly,
            round + 1,
            rounds.drop_first(),
            c,
        );
    } else {
        assert(rounds[i] == rounds.drop_first()[i - 1]);
        law_resolved_candidate_leaves_the_count(
            names,
            next,
            quota,
            seats,
            elected + newly,
            round + 1,
            rounds.drop_first(),
            i - 1,
            j - 1,
            c,
        );
    }
}

/// The weight of the fragments of the first `upto` non-empty ballots.
pub open spec fn fragment_weight_upto(l: Ledger, upto: int) -> int
    decreases upto,
{
    if upto <= 0 {
        0
    } else {
        fragment_weight_upto(l, upto - 1) + if l.ballot_seqs()[upto - 1].len() > 0 {
            l.weights@[upto - 1] as int
        } else {
            0
        }
    }
}

/// The weight held by remaining candidates, over the first `upto` ballots.
pub open spec fn held_weight_upto(l: Ledger, upto: int) -> int
    decreases upto,
{
    if upto <= 0 {
        0
    } else {
        held_weight_upto(l, upto - 1) + if first_remaining(l.ballot_seqs()[upto - 1], l.remaining@) is Some {
            l.weights@[upto - 1] as int
        } else {
            0
        }
    }
}

/// The weight of exhausted fragments, over the first `upto` ballots.
pub open spec fn exhausted_weight_upto(l: Ledger, upto: int) -> int
    decreases upto,
{
    if upto <= 0 {
        0
    } else {
        exhausted_weight_upto(l, upto - 1) + if l.ballot_seqs()[upto - 1].len() > 0 && first_remaining(
            l.ballot_seqs()[upto - 1],
            l.remaining@,
        ) is None {
            l.weights@[upto - 1] as int
        } else {
            0
        }
    }
}

/// The weight kept by the candidates marked in `elected` when they are
/// elected: what their fragments lose to the Gregory rescaling, over the
/// first `upto` ballots.
pub open spec fn kept_weight_upto(l: Ledger, elected: Seq<bool>, quota: int, upto: int) -> int
    decreases upto,
{
    if upto <= 0 {
        0
    } else {
        kept_weight_upto(l, elected, quota, upto - 1) + (l.weights@[upto - 1] as int - l.weight_after_election(
            elected,
            quota,
            upto - 1,
        ) as int)
    }
}

pub open spec fn held_weight_total(l: Ledger) -> int {
    held_weight_upto(l, l.ballots@.len() as int)
}

pub open spec fn exhausted_weight_total(l: Ledger) -> int {
    exhausted_weight_upto(l, l.ballots@.len() as int)
}

proof fn lemma_held_plus_exhausted(l: Ledger, upto: int)
    requires
        0 <= upto <= l.ballots@.len(),
    ensures
        held_weight_upto(l, upto) + exhausted_weight_upto(l, upto) == fragment_weight_upto(l, upto),
    decreases upto,
{
    if upto > 0 {
        lemma_held_plus_exhausted(l, upto - 1);
        let b = l.ballot_seqs()[upto - 1];
        if b.len() == 0 {
            assert(first_remaining(b, l.remaining@) is None);
        }
    }
}

proof fn lemma_fragment_weight_after_election(
    l: Ledger,
    next: Ledger,
    elected: Seq<bool>,
    quota: u64,
    upto: int,
)
    requires
        l.wf(),
        next.ballots@ == l.ballots@,
        next.weights@ == Seq::new(
            l.weights@.len(),
            |b: int| l.weight_after_election(elected, quota as int, b),
        ),
        0 <= upto <= l.ballots@.len(),
    ensures
        fragment_weight_upto(next, upto) + kept_weight_upto(l, elected, quota as int, upto)
            == fragment_weight_upto(l, upto),
        0 <= kept_weight_upto(l, elected, quota as int, upto),
    decreases upto,
{
    if upto > 0 {
        lemma_fragment_weight_after_election(l, next, elected, quota, upto - 1);
        let b = upto - 1;
        assert(next.ballot_seqs()[b] == l.ballot_seqs()[b]);
        let w = l.weights@[b];
        match first_remaining(l.ballot_seqs()[b], l.remaining@) {
            Some(h) => {
                crate::tally::lemma_rescaled_bounds(w, l.count(h as int), quota as int);
                crate::tally::lemma_first_remaining_is_remaining(l.ballot_seqs()[b], l.remaining@);
            },
            None => {},
        }
    }
}

proof fn lemma_fragment_weight_same(l: Ledger, next: Ledger, upto: int)
    requires
        next.ballots@ == l.ballots@,
        next.weights@ == l.weights@,
        0 <= upto <= l.ballots@.len(),
    ensures
        fragment_weight_upto(next, upto) == fragment_weight_upto(l, upto),
    decreases upto,
{
    if upto > 0 {
        lemma_fragment_weight_same(l, next, upto - 1);
        assert(next.ballot_seqs()[upto - 1] == l.ballot_seqs()[upto - 1]);
    }
}

proof fn lemma_initial_fragment_weight(
    l: Ledger,
    names: Seq<String>,
    votes: Seq<Vec<String>>,
    upto: int,
)
    requires
        is_initial_ledger(l, names, votes),
        0 <= upto <= votes.len(),
    ensures
        fragment_weight_upto(l, upto) == nonempty_upto(votes, upto) * VOTE_UNIT,
    decreases upto,
{
    if upto > 0 {
        lemma_initial_fragment_weight(l, names, votes, upto - 1);
        assert(l.ballot_seqs()[upto - 1].len() == votes[upto - 1]@.len());
        assert(nonempty_upto(votes, upto) * VOTE_UNIT == nonempty_upto(votes, upto - 1) * VOTE_UNIT
            + if votes[upto - 1]@.len() > 0 {
            VOTE_UNIT as int
        } else {
            0
        }) by (nonlinear_arith)
            requires
                nonempty_upto(votes, upto) == nonempty_upto(votes, upto - 1) + if votes[upto
                    - 1]@.len() > 0 {
                    1nat
                } else {
                    0nat
                },
        ;
    }
}

proof fn lemma_kept_nothing(l: Ledger, elected: Seq<bool>, quota: int, upto: int)
    requires
        forall|c: int| 0 <= c < elected.len() ==> !elected[c],
        0 <= upto <= l.ballots@.len(),
    ensures
        kept_weight_upto(l, elected, quota, upto) == 0,
    decreases upto,
{
    if upto > 0 {
        lemma_kept_nothing(l, elected, quota, upto - 1);
    }
}

/// Before the first round the fragments, all held, weigh one vote for each
/// valid ballot.
pub proof fn law_initial_weight_is_valid_ballot_count(
    l: Ledger,
    names: Seq<String>,
    votes: Seq<Vec<String>>,
)
    requires
        is_initial_ledger(l, names, votes),
        l.wf(),
    ensures
        held_weight_total(l) + exhausted_weight_total(l) == valid_ballot_count(votes) * VOTE_UNIT,
{
    assert(l.ballot_seqs().len() == votes.len());
    lemma_initial_fragment_weight(l, names, votes, votes.len() as int);
    lemma_held_plus_exhausted(l, votes.len() as int);
}

/// Across every round, the weight held by remaining candidates plus the
/// exhausted weight falls exactly by what the candidates elected in that
/// round keep, a non-negative amount; in an elimination round it does not
/// change. With the initial weight, this keeps held, exhausted and kept
/// weight summing to the valid ballot count at every round boundary.
pub proof fn law_round_conserves_weight(
    names: Seq<String>,
    l: Ledger,
    quota: u64,
    seats: nat,
    elected: nat,
    round: int,
    r: VotingRoundResult,
    next: Ledger,
    newly: nat,
)
    requires
        l.wf(),
        is_round(names, l, quota, seats, elected, round, r, next, newly),
    ensures
        ({
            let e = elected_flags(
                counts_of(l),
                l.remaining@,
                quota,
                forced_acceptance(l, elected, seats),
            );
            let kept = kept_weight_upto(l, e, quota as int, l.ballots@.len() as int);
            &&& 0 <= kept
            &&& held_weight_total(next) + exhausted_weight_total(next) + kept == held_weight_total(l)
                + exhausted_weight_total(l)
            &&& marked(e) == 0 ==> kept == 0
        }),
{
    let e = elected_flags(counts_of(l), l.remaining@, quota, forced_acceptance(l, elected, seats));
    let nb = l.ballots@.len() as int;
    lemma_held_plus_exhausted(l, nb);
    lemma_held_plus_exhausted(next, nb);
    lemma_exhausted_nonneg(l, nb);
    if marked(e) > 0 {
        lemma_fragment_weight_after_election(l, next, e, quota, nb);
    } else {
        lemma_fragment_weight_same(l, next, nb);
        crate::round::lemma_marked_upto_bound(e, e.len() as int);
        lemma_kept_nothing(l, e, quota as int, nb);
    }
}

/// The sum of `v(b)` over the first `upto` ballots whose fragment candidate
/// `c` holds.
pub open spec fn holder_sum(l: Ledger, c: int, v: spec_fn(int) -> int, upto: int) -> int
    decreases upto,
{
    if upto <= 0 {
        0
    } else {
        holder_sum(l, c, v, upto - 1) + if first_remaining(l.ballot_seqs()[upto - 1], l.remaining@)
            == Some(c as usize) && c >= 0 {
            v(upto - 1)
        } else {
            0
        }
    }
}

/// The sum of `v(b)` over the first `upto` ballots whose fragment is held
/// by a candidate marked in `elected`.
pub open spec fn elected_holder_sum(l: Ledger, elected: Seq<bool>, v: spec_fn(int) -> int, upto: int) -> int
    decreases upto,
{
    if upto <= 0 {
        0
    } else {
        elected_holder_sum(l, elected, v, upto - 1) + match first_remaining(
            l.ballot_seqs()[upto - 1],
            l.remaining@,
        ) {
            Some(h) => if (h as int) < elected.len() && elected[h as int] {
                v(upto - 1)
            } else {
                0
            },
            None => 0,
        }
    }
}

/// The sum of `f(c)` over the first `upto` candidates marked in `elected`.
pub open spec fn candidate_sum(elected: Seq<bool>, f: spec_fn(int) -> int, upto: int) -> int
    decreases upto,
{
    if upto <= 0 {
        0
    } else {
        candidate_sum(elected, f, upto - 1) + if elected[upto - 1] {
            f(upto - 1)
        } else {
            0
        }
    }
}

proof fn lemma_candidate_sum_add(
    elected: Seq<bool>,
    f: spec_fn(int) -> int,
    g: spec_fn(int) -> int,
    h: spec_fn(int) -> int,
    upto: int,
)
    requires
        forall|c: int| 0 <= c < upto ==> #[trigger] h(c) == f(c) + g(c),
    ensures
        candidate_sum(elected, h, upto) == candidate_sum(elected, f, upto) + candidate_sum(
            elected,
            g,
            upto,
        ),
    decreases upto,
{
    if upto > 0 {
        lemma_candidate_sum_add(elected, f, g, h, upto - 1);
    }
}

/// Summing over candidates a term that only one candidate, `h`, makes
/// non-zero.
proof fn lemma_candidate_sum_single(elected: Seq<bool>, g: spec_fn(int) -> int, h: int, x: int, upto: int)
    requires
        forall|c: int| 0 <= c < upto ==> #[trigger] g(c) == if c == h {
            x
        } else {
            0
        },
        0 <= upto <= elected.len(),
    ensures
        candidate_sum(elected, g, upto) == if 0 <= h < upto && elected[h] {
            x
        } else {
            0
        },
    decreases upto,
{
    if upto > 0 {
        lemma_candidate_sum_single(elected, g, h, x, upto - 1);
    }
}

/// Summing per-candidate sums over the elected candidates is summing over
/// the ballots that the elected candidates hold.
proof fn lemma_exchange_sums(l: Ledger, elected: Seq<bool>, v: spec_fn(int) -> int, upto: int)
    requires
        elected.len() == l.remaining@.len(),
        0 <= upto <= l.ballots@.len(),
    ensures
        candidate_sum(elected, |c: int| holder_sum(l, c, v, upto), elected.len() as int)
            == elected_holder_sum(l, elected, v, upto),
    decreases upto,
{
    let n = elected.len() as int;
    if upto == 0 {
        lemma_candidate_sum_single(elected, |c: int| holder_sum(l, c, v, 0), -1, 0, n);
    } else {
        lemma_exchange_sums(l, elected, v, upto - 1);
        let b = upto - 1;
        let fr = first_remaining(l.ballot_seqs()[b], l.remaining@);
        crate::tally::lemma_first_remaining_is_remaining(l.ballot_seqs()[b], l.remaining@);
        let step = |c: int|
            if fr == Some(c as usize) && c >= 0 {
                v(b)
            } else {
                0
            };
        lemma_candidate_sum_add(
            elected,
            |c: int| holder_sum(l, c, v, upto - 1),
            step,
            |c: int| holder_sum(l, c, v, upto),
            n,
        );
        match fr {
            Some(h) => {
                assert forall|c: int| 0 <= c < n implies #[trigger] step(c) == if c == h as int {
                    v(b)
                } else {
                    0
                } by {
                    assert(c >= 0);
                    assert(l.remaining.len() == l.remaining@.len());
                    if c != h as int {
                        assert(c as usize != h);
                    }
                }
                lemma_candidate_sum_single(elected, step, h as int, v(b), n);
            },
            None => {
                lemma_candidate_sum_single(elected, step, -1, 0, n);
            },
        }
    }
}

pub open spec fn weight_of(l: Ledger) -> spec_fn(int) -> int {
    |b: int| l.weights@[b] as int
}

/// What each fragment loses when the candidates marked in `elected` are
/// elected.
pub open spec fn loss_of(l: Ledger, elected: Seq<bool>, quota: int) -> spec_fn(int) -> int {
    |b: int| l.weights@[b] as int - l.weight_after_election(elected, quota, b) as int
}

proof fn lemma_count_is_holder_sum(l: Ledger, c: int, upto: int)
    requires
        0 <= c,
        0 <= upto <= l.ballots@.len(),
    ensures
        count_upto(l.ballot_seqs(), l.remaining@, l.weights@, c, upto) == holder_sum(
            l,
            c,
            weight_of(l),
            upto,
        ),
    decreases upto,
{
    if upto > 0 {
        lemma_count_is_holder_sum(l, c, upto - 1);
    }
}

proof fn lemma_elected_held_at_most_held(l: Ledger, elected: Seq<bool>, upto: int)
    requires
        0 <= upto <= l.ballots@.len(),
    ensures
        elected_holder_sum(l, elected, weight_of(l), upto) <= held_weight_upto(l, upto),
    decreases upto,
{
    if upto > 0 {
        lemma_elected_held_at_most_held(l, elected, upto - 1);
    }
}

proof fn lemma_kept_is_elected_loss(l: Ledger, elected: Seq<bool>, quota: int, upto: int)
    requires
        0 <= upto <= l.ballots@.len(),
    ensures
        kept_weight_upto(l, elected, quota, upto) == elected_holder_sum(
            l,
            elected,
            loss_of(l, elected, quota),
            upto,
        ),
    decreases upto,
{
    if upto > 0 {
        lemma_kept_is_elected_loss(l, elected, quota, upto - 1);
    }
}

/// The rescaled fragments of one elected candidate, of count `count`, weigh
/// at most its surplus: `floor(w * s / count) * count <= w * s` for each.
proof fn lemma_rescaled_sum(l: Ledger, c: int, quota: int, upto: int)
    requires
        l.wf(),
        0 <= c,
        quota >= 0,
        l.count(c) > 0,
        0 <= upto <= l.ballots@.len(),
    ensures
        holder_sum(l, c, |b: int| rescaled(l.weights@[b], l.count(c), quota), upto) * l.count(c)
            <= holder_sum(l, c, weight_of(l), upto) * surplus(l.count(c), quota),
    decreases upto,
{
    if upto > 0 {
        lemma_rescaled_sum(l, c, quota, upto - 1);
        let cnt = l.count(c);
        let sp = surplus(cnt, quota);
        let w = l.weights@[upto - 1] as int;
        let f = |b: int| rescaled(l.weights@[b], l.count(c), quota);
        let p0 = holder_sum(l, c, f, upto - 1);
        let q0 = holder_sum(l, c, weight_of(l), upto - 1);
        if first_remaining(l.ballot_seqs()[upto - 1], l.remaining@) == Some(c as usize) {
            assert(f(upto - 1) == w * sp / cnt);
            assert((w * sp / cnt) * cnt <= w * sp) by (nonlinear_arith)
                requires
                    cnt > 0,
                    w >= 0,
                    sp >= 0,
            ;
            assert((p0 + w * sp / cnt) * cnt <= (q0 + w) * sp) by (nonlinear_arith)
                requires
                    p0 * cnt <= q0 * sp,
                    (w * sp / cnt) * cnt <= w * sp,
            ;
        }
    }
}

/// An elected candidate whose count reaches the quota keeps at least the
/// quota.
proof fn lemma_elected_keeps_quota(l: Ledger, elected: Seq<bool>, quota: int, c: int)
    requires
        l.wf(),
        elected.len() == l.remaining@.len(),
        0 <= c < elected.len(),
        elected[c],
        quota >= 0,
        l.count(c) >= quota,
    ensures
        holder_sum(l, c, loss_of(l, elected, quota), l.ballots@.len() as int) >= quota,
{
    let nb = l.ballots@.len() as int;
    let cnt = l.count(c);
    let f = |b: int| rescaled(l.weights@[b], l.count(c), quota);
    lemma_count_is_holder_sum(l, c, nb);
    lemma_loss_split(l, elected, quota, c, nb);
    if cnt > 0 {
        lemma_rescaled_sum(l, c, quota, nb);
        let p = holder_sum(l, c, f, nb);
        assert(p <= cnt - quota) by (nonlinear_arith)
            requires
                p * cnt <= cnt * (cnt - quota),
                cnt > 0,
        ;
    } else {
        lemma_holder_sum_nonneg_zero(l, c, f, nb);
    }
}

proof fn lemma_holder_sum_nonneg_zero(l: Ledger, c: int, f: spec_fn(int) -> int, upto: int)
    requires
        forall|b: int| 0 <= b < upto ==> #[trigger] f(b) == 0,
        0 <= upto,
    ensures
        holder_sum(l, c, f, upto) == 0,
    decreases upto,
{
    if upto > 0 {
        lemma_holder_sum_nonneg_zero(l, c, f, upto - 1);
    }
}

/// For an elected candidate, what its fragments lose is its count less
/// their rescaled weights.
proof fn lemma_loss_split(l: Ledger, elected: Seq<bool>, quota: int, c: int, upto: int)
    requires
        elected.len() == l.remaining@.len(),
        0 <= c < elected.len(),
        elected[c],
        quota >= 0,
        0 <= upto <= l.ballots@.len(),
    ensures
        holder_sum(l, c, loss_of(l, elected, quota), upto) == holder_sum(l, c, weight_of(l), upto)
            - holder_sum(l, c, |b: int| rescaled(l.weights@[b], l.count(c), quota), upto),
    decreases upto,
{
    if upto > 0 {
        lemma_loss_split(l, elected, quota, c, upto - 1);
        crate::tally::lemma_first_remaining_is_remaining(l.ballot_seqs()[upto - 1], l.remaining@);
        assert(l.remaining.len() == l.remaining@.len());
        if first_remaining(l.ballot_seqs()[upto - 1], l.remaining@) == Some(c as usize) {
            crate::tally::lemma_rescaled_bounds(l.weights@[upto - 1], l.count(c), quota);
        }
    }
}

/// A sum over the elected candidates of terms that are each at least `q`.
proof fn lemma_candidate_sum_at_least(elected: Seq<bool>, f: spec_fn(int) -> int, q: int, upto: int)
    requires
        0 <= upto <= elected.len(),
        forall|c: int| 0 <= c < upto && elected[c] ==> #[trigger] f(c) >= q,
    ensures
        candidate_sum(elected, f, upto) >= marked_upto(elected, upto) * q,
    decreases upto,
{
    if upto > 0 {
        lemma_candidate_sum_at_least(elected, f, q, upto - 1);
        let m = marked_upto(elected, upto - 1);
        assert((m + 1) * q == m * q + q) by (nonlinear_arith);
        let s0 = candidate_sum(elected, f, upto - 1);
        let s1 = candidate_sum(elected, f, upto);
        let m1 = marked_upto(elected, upto);
        if elected[upto - 1] {
            assert(f(upto - 1) >= q);
            assert(m1 == m + 1);
            assert(s1 == s0 + f(upto - 1));
            assert(s1 >= m1 * q) by (nonlinear_arith)
                requires
                    s0 >= m * q,
                    s1 == s0 + f(upto - 1),
                    f(upto - 1) >= q,
                    m1 == m + 1,
            ;
        } else {
            assert(m1 == m);
            assert(s1 == s0);
            assert(s1 >= m1 * q);
        }
        assert(s1 >= m1 * q);
    } else {
        assert(marked_upto(elected, upto) == 0);
        assert(marked_upto(elected, upto) * q == 0);
    }
}

/// How many entries of `order` are marked in `flags`.
pub open spec fn marked_in(order: Seq<usize>, flags: Seq<bool>) -> nat
    decreases order.len(),
{
    if order.len() == 0 {
        0
    } else {
        marked_in(order.drop_last(), flags) + if flags[order.last() as int] {
            1nat
        } else {
            0nat
        }
    }
}

proof fn lemma_marked_in_agree(order: Seq<usize>, f1: Seq<bool>, f2: Seq<bool>)
    requires
        forall|i: int| 0 <= i < order.len() ==> f1[#[trigger] order[i] as int] == f2[order[i] as int],
    ensures
        marked_in(order, f1) == marked_in(order, f2),
    decreases order.len(),
{
    if order.len() > 0 {
        assert forall|i: int| 0 <= i < order.drop_last().len() implies f1[#[trigger] order.drop_last()[i] as int]
            == f2[order.drop_last()[i] as int] by {
            assert(order.drop_last()[i] == order[i]);
        }
        lemma_marked_in_agree(order.drop_last(), f1, f2);
        assert(f1[order.last() as int] == f2[order[order.len() - 1] as int]);
    }
}

/// Counting the marked entries of a sequence that lists each member once
/// counts the marked members.
proof fn lemma_marked_in_permutation(order: Seq<usize>, members: Seq<bool>, flags: Seq<bool>)
    requires
        order.no_duplicates(),
        flags.len() == members.len(),
        members.len() <= usize::MAX,
        forall|i: int| 0 <= i < order.len() ==> (order[i] as int) < members.len() && members[#[trigger] order[i] as int],
        forall|c: int| 0 <= c < members.len() && members[c] ==> order.contains(c as usize),
        forall|c: int| 0 <= c < flags.len() && flags[c] ==> members[c],
    ensures
        marked_in(order, flags) == marked(flags),
    decreases order.len(),
{
    let n = members.len() as int;
    if order.len() == 0 {
        assert forall|c: int| 0 <= c < n implies !flags[c] by {
            if flags[c] {
                assert(order.contains(c as usize));
            }
        }
        crate::round::lemma_marked_upto_bound(flags, n);
    } else {
        let x = order.last();
        let rest = order.drop_last();
        let m2 = members.update(x as int, false);
        let f2 = flags.update(x as int, false);
        assert forall|i: int| 0 <= i < rest.len() implies rest[i] != x by {
            assert(rest[i] == order[i]);
            assert(order[order.len() - 1] == x);
        }
        assert forall|i: int| 0 <= i < rest.len() implies (rest[i] as int) < m2.len() && m2[#[trigger] rest[i] as int] by {
            assert(rest[i] == order[i]);
        }
        assert forall|c: int| 0 <= c < m2.len() && m2[c] implies rest.contains(c as usize) by {
            assert(order.contains(c as usize));
            let i = choose|i: int| 0 <= i < order.len() && order[i] == c as usize;
            if i == order.len() - 1 {
                assert(c == x as int);
            } else {
                assert(rest[i] == c as usize);
            }
        }
        assert(rest.no_duplicates()) by {
            assert forall|i: int, j: int| 0 <= i < rest.len() && 0 <= j < rest.len() && i != j implies rest[i] != rest[j] by {
                assert(rest[i] == order[i]);
                assert(rest[j] == order[j]);
            }
        }
        lemma_marked_in_permutation(rest, m2, f2);
        assert forall|i: int| 0 <= i < rest.len() implies flags[#[trigger] rest[i] as int] == f2[rest[i] as int] by {}
        lemma_marked_in_agree(rest, flags, f2);
        if flags[x as int] {
            crate::round::lemma_marked_clear_one(flags, x as int, flags.len() as int);
        } else {
            assert(f2 =~= flags);
        }
    }
}

/// The selected entries of a record that lists `order` are those whose
/// candidate is marked in `selected`.
proof fn lemma_selected_count(
    entries: Seq<PassingCandidateResult>,
    order: Seq<usize>,
    names: Seq<String>,
    counts: Seq<u64>,
    selected: Seq<bool>,
    draw: Seq<bool>,
)
    requires
        lists_candidates(entries, order, names, counts, selected, draw),
    ensures
        selected_names(entries).len() == marked_in(order, selected),
    decreases order.len(),
{
    if order.len() > 0 {
        let e2 = entries.drop_last();
        let o2 = order.drop_last();
        assert forall|i: int| 0 <= i < e2.len() implies #[trigger] e2[i] == (PassingCandidateResult {
            data: crate::models::CandidateResultData {
                name: names[o2[i] as int],
                vote_count: counts[o2[i] as int],
                is_draw: draw[o2[i] as int],
            },
            is_selected: selected[o2[i] as int],
        }) by {
            assert(e2[i] == entries[i]);
        }
        lemma_selected_count(e2, o2, names, counts, selected, draw);
        assert(entries.last() == entries[entries.len() - 1]);
    }
}

proof fn lemma_winners_concat(a: Seq<VotingRoundResult>, b: Seq<VotingRoundResult>)
    ensures
        winners_of(a + b) == winners_of(a) + winners_of(b),
    decreases b.len(),
{
    if b.len() == 0 {
        assert(a + b =~= a);
        assert(winners_of(a) + winners_of(b) =~= winners_of(a));
    } else {
        lemma_winners_concat(a, b.drop_last());
        assert((a + b).drop_last() =~= a + b.drop_last());
        assert((a + b).last() == b.last());
        assert(winners_of(a + b) =~= winners_of(a) + winners_of(b));
    }
}

/// The quota, times one more than the seats, exceeds the valid weight.
proof fn lemma_quota_exceeds_share(valid: nat, seats: nat)
    ensures
        (seats + 1) * quota_units(valid, seats) > valid * VOTE_UNIT,
{
    let t = (valid * VOTE_UNIT) as int;
    let d = (seats + 1) as int;
    let q = t / d;
    assert(d * (q + VOTE_UNIT) > t) by (nonlinear_arith)
        requires
            d >= 1,
            t >= 0,
            q == t / d,
    ;
}

pub open spec fn min_nat(a: nat, b: nat) -> nat {
    if a <= b {
        a
    } else {
        b
    }
}

/// What holds of a ledger part-way through a tabulation with `valid` valid
/// ballots: the seats filled so far and the candidates that remain, and,
/// while candidates remain, the weight still in play leaves a quota for
/// every seat filled.
pub open spec fn seats_in_reach(
    l: Ledger,
    n: nat,
    quota: u64,
    seats: nat,
    elected: nat,
    valid: nat,
) -> bool {
    &&& l.wf()
    &&& l.remaining@.len() == n
    &&& l.remaining@.len() <= usize::MAX
    &&& elected <= seats
    &&& elected + marked(l.remaining@) <= n
    &&& elected + marked(l.remaining@) >= min_nat(seats, n)
    &&& marked(l.remaining@) > 0 ==> held_weight_total(l) + exhausted_weight_total(l) + elected
        * quota <= valid * VOTE_UNIT
}

/// One round keeps `seats_in_reach`, and its record selects exactly the
/// candidates it elects.
proof fn lemma_round_keeps_seats_in_reach(
    names: Seq<String>,
    l: Ledger,
    quota: u64,
    seats: nat,
    elected: nat,
    round: int,
    r: VotingRoundResult,
    next: Ledger,
    newly: nat,
    valid: nat,
)
    requires
        names.len() == l.remaining@.len(),
        quota as int == quota_units(valid, seats),
        seats >= 1,
        seats_in_reach(l, names.len(), quota, seats, elected, valid),
        !finished(l, elected, seats),
        is_round(names, l, quota, seats, elected, round, r, next, newly),
    ensures
        seats_in_reach(next, names.len(), quota, seats, elected + newly, valid),
        selected_names(r.candidate_results@).len() == newly,
{
    let n = names.len();
    let nb = l.ballots@.len() as int;
    let counts = counts_of(l);
    let forced = forced_acceptance(l, elected, seats);
    let e = elected_flags(counts, l.remaining@, quota, forced);
    let rem = l.remaining@;
    assert forall|c: int| 0 <= c < n implies counts[c] as int == l.count(c) by {
        l.lemma_count_bounds(c);
    }
    assert(next.ballot_seqs() == l.ballot_seqs());
    lemma_held_plus_exhausted(l, nb);
    lemma_held_plus_exhausted(next, nb);
    lemma_exhausted_nonneg(l, nb);
    if marked(e) > 0 {
        lemma_marked_remove(rem, e, n as int);
        lemma_fragment_weight_after_election(l, next, e, quota, nb);
        assert forall|b: int| 0 <= b < next.weights@.len() implies next.weights@[b] <= VOTE_UNIT by {
            match first_remaining(l.ballot_seqs()[b], rem) {
                Some(h) => crate::tally::lemma_rescaled_bounds(l.weights@[b], l.count(h as int), quota as int),
                None => {},
            }
        }
        let order = choose|order: Seq<usize>|
            is_ranking(order, counts, rem) && lists_candidates(
                r.candidate_results@,
                order,
                names,
                counts,
                e,
                Seq::new(counts.len(), |c: int| false),
            );
        lemma_selected_count(
            r.candidate_results@,
            order,
            names,
            counts,
            e,
            Seq::new(counts.len(), |c: int| false),
        );
        lemma_marked_in_permutation(order, rem, e);
        if forced {
            assert(e =~= rem);
        } else {
            // Every elected candidate reached the quota.
            let q = quota as int;
            let v = valid * VOTE_UNIT;
            let k = marked(e);
            lemma_candidate_sum_at_least(e, |c: int| l.count(c), q, n as int);
            assert forall|c: int| 0 <= c < n implies #[trigger] l.count(c) == holder_sum(l, c, weight_of(l), nb) + 0 by {
                lemma_count_is_holder_sum(l, c, nb);
            }
            lemma_candidate_sum_add(
                e,
                |c: int| holder_sum(l, c, weight_of(l), nb),
                |c: int| 0,
                |c: int| l.count(c),
                n as int,
            );
            lemma_candidate_sum_single(e, |c: int| 0, -1, 0, n as int);
            lemma_exchange_sums(l, e, weight_of(l), nb);
            lemma_elected_held_at_most_held(l, e, nb);
            lemma_quota_exceeds_share(valid, seats);
            assert((elected + k) * q <= v) by (nonlinear_arith)
                requires
                    k * q <= held_weight_total(l),
                    held_weight_total(l) + exhausted_weight_total(l) + elected * q <= v,
                    exhausted_weight_total(l) >= 0,
            ;
            assert(elected + k <= seats) by (nonlinear_arith)
                requires
                    (elected + k) * q <= v,
                    (seats + 1) * q > v,
                    q >= 0,
            ;
            // Each of them keeps at least the quota.
            assert forall|c: int| 0 <= c < n && e[c] implies #[trigger] holder_sum(
                l,
                c,
                loss_of(l, e, q),
                nb,
            ) >= q by {
                lemma_elected_keeps_quota(l, e, q, c);
            }
            lemma_candidate_sum_at_least(e, |c: int| holder_sum(l, c, loss_of(l, e, q), nb), q, n as int);
            lemma_exchange_sums(l, e, loss_of(l, e, q), nb);
            lemma_kept_is_elected_loss(l, e, q, nb);
            assert((elected + k) * q == elected * q + k * q) by (nonlinear_arith);
            assert(marked(next.remaining@) > 0 ==> held_weight_total(next) + exhausted_weight_total(next) + (elected + newly)
            * quota <= valid * VOTE_UNIT);
        }
        assert(next.wf());
        assert(elected + newly + marked(next.remaining@) >= min_nat(seats, n));
    } else {
        let d = choose|d: int|
            {
                &&& in_draw(counts, rem, d)
                &&& next.ballots@ == l.ballots@
                &&& next.weights@ == l.weights@
                &&& next.remaining@ == rem.update(d, false)
                &&& is_elimination_record(r, round, names, counts, rem, d)
            };
        crate::round::lemma_marked_clear_one(rem, d, n as int);
        lemma_fragment_weight_same(l, next, nb);
        if forced {
            assert(e =~= rem);
        }
        let draw = draw_flags(counts, rem);
        let none = Seq::new(counts.len(), |c: int| false);
        let order = choose|order: Seq<usize>|
            is_ranking(order, counts, rem.update(d, false)) && lists_candidates(
                r.candidate_results@,
                order,
                names,
                counts,
                none,
                Seq::new(counts.len(), |c: int| draw[c] && marked(draw) > 1),
            );
        lemma_selected_count(
            r.candidate_results@,
            order,
            names,
            counts,
            none,
            Seq::new(counts.len(), |c: int| draw[c] && marked(draw) > 1),
        );
        lemma_marked_in_permutation(order, rem.update(d, false), none);
        crate::round::lemma_marked_upto_bound(none, n as int);
        assert(next.wf());
        assert(elected + marked(next.remaining@) >= min_nat(seats, n));
        assert(marked(next.remaining@) > 0 ==> held_weight_total(next) + exhausted_weight_total(next) + elected
        * quota <= valid * VOTE_UNIT);
    }
}

proof fn lemma_exhausted_nonneg(l: Ledger, upto: int)
    ensures
        exhausted_weight_upto(l, upto) >= 0,
    decreases upto,
{
    if upto > 0 {
        lemma_exhausted_nonneg(l, upto - 1);
    }
}

/// A tabulation that has reached a ledger with `seats_in_reach` fills
/// exactly `min(seats, candidates)` seats in all.
proof fn lemma_run_fills_seats(
    names: Seq<String>,
    l: Ledger,
    quota: u64,
    seats: nat,
    elected: nat,
    round: int,
    rounds: Seq<VotingRoundResult>,
    valid: nat,
)
    requires
        names.len() == l.remaining@.len(),
        quota as int == quota_units(valid, seats),
        seats >= 1,
        seats_in_reach(l, names.len(), quota, seats, elected, valid),
        follows(names, l, quota, seats, elected, round, rounds),
    ensures
        elected + winners_of(rounds).len() == min_nat(seats, names.len()),
    decreases rounds.len(),
{
    if rounds.len() == 0 {
        assert(winners_of(rounds).len() == 0);
        assert(finished(l, elected, seats));
    } else {
        let (next, newly) = lemma_first_round(names, l, quota, seats, elected, round, rounds);
        lemma_round_keeps_seats_in_reach(names, l, quota, seats, elected, round, rounds[0], next, newly, valid);
        lemma_run_fills_seats(
            names,
            next,
            quota,
            seats,
            elected + newly,
            round + 1,
            rounds.drop_first(),
            valid,
        );
        assert(rounds =~= seq![rounds[0]] + rounds.drop_first());
        lemma_winners_concat(seq![rounds[0]], rounds.drop_first());
        assert(seq![rounds[0]].drop_last() =~= Seq::<VotingRoundResult>::empty());
        assert(seq![rounds[0]].last() == rounds[0]);
        assert(winners_of(Seq::<VotingRoundResult>::empty()) =~= Seq::<String>::empty());
        assert(winners_of(seq![rounds[0]]) =~= selected_names(rounds[0].candidate_results@));
        assert(winners_of(rounds).len() == newly + winners_of(rounds.drop_first()).len());
    }
}

/// The winners fill `min(seats, candidates)` seats: every seat when there
/// are enough candidates, and every candidate otherwise.
pub proof fn law_winners_fill_the_seats(
    names: Seq<String>,
    votes: Seq<Vec<String>>,
    l: Ledger,
    seats: nat,
    rounds: Seq<VotingRoundResult>,
)
    requires
        is_initial_ledger(l, names, votes),
        l.wf(),
        names.len() <= usize::MAX,
        seats >= 1,
        follows(
            names,
            l,
            quota_units(valid_ballot_count(votes), seats) as u64,
            seats,
            0,
            1,
            rounds,
        ),
    ensures
        winners_of(rounds).len() == min_nat(seats, names.len()),
{
    let valid = valid_ballot_count(votes);
    let q = quota_units(valid, seats);
    lemma_marked_all(names.len() as int);
    assert(l.remaining@ =~= Seq::new(names.len(), |c: int| true));
    law_initial_weight_is_valid_ballot_count(l, names, votes);
    assert(0 <= q <= u64::MAX) by {
        assert(valid <= votes.len()) by {
            lemma_nonempty_at_most(votes, votes.len() as int);
        }
        assert(l.ballot_seqs().len() == votes.len());
        assert((valid * VOTE_UNIT) as int / ((seats + 1) as int) <= valid * VOTE_UNIT / 2) by (nonlinear_arith)
            requires
                seats >= 1,
        ;
    }
    lemma_run_fills_seats(names, l, q as u64, seats, 0, 1, rounds, valid);
}

proof fn lemma_nonempty_at_most(votes: Seq<Vec<String>>, upto: int)
    requires
        0 <= upto <= votes.len(),
    ensures
        nonempty_upto(votes, upto) <= upto,
    decreases upto,
{
    if upto > 0 {
        lemma_nonempty_at_most(votes, upto - 1);
    }
}

/// Two rankings of the same members by the same counts are the same.
proof fn lemma_ranking_unique(o1: Seq<usize>, o2: Seq<usize>, counts: Seq<u64>, members: Seq<bool>)
    requires
        is_ranking(o1, counts, members),
        is_ranking(o2, counts, members),
        members.len() <= usize::MAX,
    ensures
        o1 == o2,
    decreases o1.len(),
{
    if o1.len() == 0 {
        if o2.len() > 0 {
            assert(members[o2[0] as int]);
            assert(o1.contains(o2[0]));
        }
        assert(o1 =~= o2);
    } else {
        assert(members[o1[0] as int]);
        assert(o2.contains(o1[0]));
        let x = o1[0];
        let y = o2[0];
        if x != y {
            assert(o1.contains(y));
            let j1 = choose|j: int| 0 <= j < o1.len() && o1[j] == y;
            let j2 = choose|j: int| 0 <= j < o2.len() && o2[j] == x;
            assert(ranks_before(counts, o1[0], o1[j1]));
            assert(ranks_before(counts, o2[0], o2[j2]));
        }
        let m2 = members.update(x as int, false);
        let r1 = o1.drop_first();
        let r2 = o2.drop_first();
        assert(is_ranking(r1, counts, m2)) by {
            assert forall|i: int| 0 <= i < r1.len() implies (r1[i] as int) < m2.len() && m2[r1[i] as int] by {
                assert(r1[i] == o1[i + 1]);
            }
            assert forall|c: int| 0 <= c < m2.len() && m2[c] implies r1.contains(c as usize) by {
                assert(o1.contains(c as usize));
                let i = choose|i: int| 0 <= i < o1.len() && o1[i] == c as usize;
                assert(i != 0);
                assert(r1[i - 1] == c as usize);
            }
            assert forall|i: int, j: int| 0 <= i < j < r1.len() implies ranks_before(
                counts,
                #[trigger] r1[i],
                #[trigger] r1[j],
            ) by {
                assert(r1[i] == o1[i + 1] && r1[j] == o1[j + 1]);
            }
        }
        assert(is_ranking(r2, counts, m2)) by {
            assert forall|i: int| 0 <= i < r2.len() implies (r2[i] as int) < m2.len() && m2[r2[i] as int] by {
                assert(r2[i] == o2[i + 1]);
            }
            assert forall|c: int| 0 <= c < m2.len() && m2[c] implies r2.contains(c as usize) by {
                assert(o2.contains(c as usize));
                let i = choose|i: int| 0 <= i < o2.len() && o2[i] == c as usize;
                assert(i != 0);
                assert(r2[i - 1] == c as usize);
            }
            assert forall|i: int, j: int| 0 <= i < j < r2.len() implies ranks_before(
                counts,
                #[trigger] r2[i],
                #[trigger] r2[j],
            ) by {
                assert(r2[i] == o2[i + 1] && r2[j] == o2[j + 1]);
            }
        }
        lemma_ranking_unique(r1, r2, counts, m2);
        assert(o1 =~= seq![x] + r1);
        assert(o2 =~= seq![y] + r2);
    }
}

/// Two ledgers that agree in every view.
pub open spec fn same_ledger(a: Ledger, b: Ledger) -> bool {
    &&& a.ballots@ == b.ballots@
    &&& a.remaining@ == b.remaining@
    &&& a.weights@ == b.weights@
}

/// Two round records that agree in every field.
pub open spec fn same_record(a: VotingRoundResult, b: VotingRoundResult) -> bool {
    &&& a.round == b.round
    &&& a.candidate_results@ == b.candidate_results@
    &&& a.dropped_candidate == b.dropped_candidate
}

proof fn lemma_count_same(a: Ledger, b: Ledger, c: int)
    requires
        same_ledger(a, b),
    ensures
        a.count(c) == b.count(c),
        a.ballot_seqs() == b.ballot_seqs(),
{
    assert(a.ballot_seqs() =~= b.ballot_seqs());
}

/// A round is determined by the ledger it is played on and, when it
/// eliminates, by the candidate it drops.
proof fn lemma_round_determined(
    names: Seq<String>,
    l1: Ledger,
    l2: Ledger,
    quota: u64,
    seats: nat,
    elected: nat,
    round: int,
    r1: VotingRoundResult,
    r2: VotingRoundResult,
    next1: Ledger,
    next2: Ledger,
    newly1: nat,
    newly2: nat,
)
    requires
        names_unique(names),
        names.len() == l1.remaining@.len(),
        l1.remaining@.len() <= usize::MAX,
        same_ledger(l1, l2),
        is_round(names, l1, quota, seats, elected, round, r1, next1, newly1),
        is_round(names, l2, quota, seats, elected, round, r2, next2, newly2),
        r1.dropped_candidate == r2.dropped_candidate,
    ensures
        same_record(r1, r2),
        same_ledger(next1, next2),
        newly1 == newly2,
{
    assert(counts_of(l1) =~= counts_of(l2)) by {
        assert forall|c: int| 0 <= c < l1.remaining@.len() implies counts_of(l1)[c] == counts_of(l2)[c] by {
            lemma_count_same(l1, l2, c);
        }
    }
    assert forall|b: int| 0 <= b < l1.weights@.len() implies #[trigger] l1.weight_after_election(
        elected_flags(counts_of(l1), l1.remaining@, quota, forced_acceptance(l1, elected, seats)),
        quota as int,
        b,
    ) == l2.weight_after_election(
        elected_flags(counts_of(l1), l1.remaining@, quota, forced_acceptance(l1, elected, seats)),
        quota as int,
        b,
    ) by {
        lemma_count_same(l1, l2, 0);
        match first_remaining(l1.ballot_seqs()[b], l1.remaining@) {
            Some(h) => lemma_count_same(l1, l2, h as int),
            None => {},
        }
    }
    let counts = counts_of(l1);
    let rem = l1.remaining@;
    let e = elected_flags(counts, rem, quota, forced_acceptance(l1, elected, seats));
    let none = Seq::new(counts.len(), |c: int| false);
    if marked(e) > 0 {
        let o1 = choose|order: Seq<usize>|
            is_ranking(order, counts, rem) && lists_candidates(r1.candidate_results@, order, names, counts, e, none);
        let o2 = choose|order: Seq<usize>|
            is_ranking(order, counts, rem) && lists_candidates(r2.candidate_results@, order, names, counts, e, none);
        lemma_ranking_unique(o1, o2, counts, rem);
        assert(r1.candidate_results@ =~= r2.candidate_results@);
        assert(next1.weights@ =~= next2.weights@);
    } else {
        let d1 = choose|d: int|
            {
                &&& in_draw(counts, rem, d)
                &&& next1.ballots@ == l1.ballots@
                &&& next1.weights@ == l1.weights@
                &&& next1.remaining@ == rem.update(d, false)
                &&& is_elimination_record(r1, round, names, counts, rem, d)
            };
        let d2 = choose|d: int|
            {
                &&& in_draw(counts, rem, d)
                &&& next2.ballots@ == l2.ballots@
                &&& next2.weights@ == l2.weights@
                &&& next2.remaining@ == rem.update(d, false)
                &&& is_elimination_record(r2, round, names, counts, rem, d)
            };
        assert(names[d1] == names[d2]);
        if d1 != d2 {
            if d1 < d2 {
                assert(names[d1]@ != names[d2]@);
            } else {
                assert(names[d2]@ != names[d1]@);
            }
        }
        let draw = draw_flags(counts, rem);
        let flags = Seq::new(counts.len(), |c: int| draw[c] && marked(draw) > 1);
        let o1 = choose|order: Seq<usize>|
            is_ranking(order, counts, rem.update(d1, false)) && lists_candidates(
                r1.candidate_results@,
                order,
                names,
                counts,
                none,
                flags,
            );
        let o2 = choose|order: Seq<usize>|
            is_ranking(order, counts, rem.update(d1, false)) && lists_candidates(
                r2.candidate_results@,
                order,
                names,
                counts,
                none,
                flags,
            );
        lemma_ranking_unique(o1, o2, counts, rem.update(d1, false));
        assert(r1.candidate_results@ =~= r2.candidate_results@);
    }
}

/// The tabulation is deterministic but for its draws: two tabulations of
/// the same input that break their draws the same way (drop the same
/// candidate in each round) produce the same rounds.
pub proof fn law_same_draws_same_result(
    names: Seq<String>,
    l: Ledger,
    quota: u64,
    seats: nat,
    elected: nat,
    round: int,
    rounds1: Seq<VotingRoundResult>,
    rounds2: Seq<VotingRoundResult>,
)
    requires
        names_unique(names),
        names.len() == l.remaining@.len(),
        l.remaining@.len() <= usize::MAX,
        follows(names, l, quota, seats, elected, round, rounds1),
        follows(names, l, quota, seats, elected, round, rounds2),
        forall|i: int|
            0 <= i < rounds1.len() && 0 <= i < rounds2.len() ==> (
            #[trigger] rounds1[i].dropped_candidate matches Some(d1) ==> rounds2[i].dropped_candidate matches Some(d2)
                && d1.name == d2.name) && (rounds2[i].dropped_candidate matches Some(d2)
                ==> rounds1[i].dropped_candidate matches Some(d1) && d1.name == d2.name),
    ensures
        rounds1.len() == rounds2.len(),
        forall|i: int| 0 <= i < rounds1.len() ==> same_record(#[trigger] rounds1[i], rounds2[i]),
{
    lemma_same_draws_same_result(names, l, l, quota, seats, elected, round, rounds1, rounds2);
}

proof fn lemma_same_draws_same_result(
    names: Seq<String>,
    l1: Ledger,
    l2: Ledger,
    quota: u64,
    seats: nat,
    elected: nat,
    round: int,
    rounds1: Seq<VotingRoundResult>,
    rounds2: Seq<VotingRoundResult>,
)
    requires
        names_unique(names),
        names.len() == l1.remaining@.len(),
        l1.remaining@.len() <= usize::MAX,
        same_ledger(l1, l2),
        follows(names, l1, quota, seats, elected, round, rounds1),
        follows(names, l2, quota, seats, elected, round, rounds2),
        forall|i: int|
            0 <= i < rounds1.len() && 0 <= i < rounds2.len() ==> (
            #[trigger] rounds1[i].dropped_candidate matches Some(d1) ==> rounds2[i].dropped_candidate matches Some(d2)
                && d1.name == d2.name) && (rounds2[i].dropped_candidate matches Some(d2)
                ==> rounds1[i].dropped_candidate matches Some(d1) && d1.name == d2.name),
    ensures
        rounds1.len() == rounds2.len(),
        forall|i: int| 0 <= i < rounds1.len() ==> same_record(#[trigger] rounds1[i], rounds2[i]),
    decreases rounds1.len(),
{
    assert(marked(l1.remaining@) == marked(l2.remaining@));
    if rounds1.len() == 0 || rounds2.len() == 0 {
        if rounds1.len() > 0 {
            lemma_first_round(names, l1, quota, seats, elected, round, rounds1);
        }
        if rounds2.len() > 0 {
            lemma_first_round(names, l2, quota, seats, elected, round, rounds2);
        }
    } else {
        let (n1, k1) = lemma_first_round(names, l1, quota, seats, elected, round, rounds1);
        let (n2, k2) = lemma_first_round(names, l2, quota, seats, elected, round, rounds2);
        lemma_dropped_same(names, l1, l2, quota, seats, elected, round, rounds1[0], rounds2[0], n1, n2, k1, k2);
        lemma_round_determined(names, l1, l2, quota, seats, elected, round, rounds1[0], rounds2[0], n1, n2, k1, k2);
        assert forall|i: int|
            0 <= i < rounds1.drop_first().len() && 0 <= i < rounds2.drop_first().len() implies (
            #[trigger] rounds1.drop_first()[i].dropped_candidate matches Some(d1) ==> rounds2.drop_first()[i].dropped_candidate matches Some(d2)
                && d1.name == d2.name) && (rounds2.drop_first()[i].dropped_candidate matches Some(d2)
                ==> rounds1.drop_first()[i].dropped_candidate matches Some(d1) && d1.name == d2.name) by {
            assert(rounds1.drop_first()[i] == rounds1[i + 1]);
            assert(rounds2.drop_first()[i] == rounds2[i + 1]);
        }
        lemma_same_draws_same_result(
            names,
            n1,
            n2,
            quota,
            seats,
            elected + k1,
            round + 1,
            rounds1.drop_first(),
            rounds2.drop_first(),
        );
        assert forall|i: int| 0 <= i < rounds1.len() implies same_record(#[trigger] rounds1[i], rounds2[i]) by {
            if i > 0 {
                assert(rounds1.drop_first()[i - 1] == rounds1[i]);
                assert(rounds2.drop_first()[i - 1] == rounds2[i]);
            }
        }
    }
}

/// When both records name the same dropped candidate, or neither drops
/// one, their dropped entries are equal.
proof fn lemma_dropped_same(
    names: Seq<String>,
    l1: Ledger,
    l2: Ledger,
    quota: u64,
    seats: nat,
    elected: nat,
    round: int,
    r1: VotingRoundResult,
    r2: VotingRoundResult,
    next1: Ledger,
    next2: Ledger,
    newly1: nat,
    newly2: nat,
)
    requires
        names_unique(names),
        names.len() == l1.remaining@.len(),
        same_ledger(l1, l2),
        is_round(names, l1, quota, seats, elected, round, r1, next1, newly1),
        is_round(names, l2, quota, seats, elected, round, r2, next2, newly2),
        r1.dropped_candidate matches Some(d1) ==> r2.dropped_candidate matches Some(d2) && d1.name == d2.name,
        r2.dropped_candidate matches Some(d2) ==> r1.dropped_candidate matches Some(d1) && d1.name == d2.name,
    ensures
        r1.dropped_candidate == r2.dropped_candidate,
{
    assert(counts_of(l1) =~= counts_of(l2)) by {
        assert forall|c: int| 0 <= c < l1.remaining@.len() implies counts_of(l1)[c] == counts_of(l2)[c] by {
            lemma_count_same(l1, l2, c);
        }
    }
    let counts = counts_of(l1);
    let rem = l1.remaining@;
    let e = elected_flags(counts, rem, quota, forced_acceptance(l1, elected, seats));
    if marked(e) == 0 {
        let d1 = choose|d: int|
            {
                &&& in_draw(counts, rem, d)
                &&& next1.ballots@ == l1.ballots@
                &&& next1.weights@ == l1.weights@
                &&& next1.remaining@ == rem.update(d, false)
                &&& is_elimination_record(r1, round, names, counts, rem, d)
            };
        let d2 = choose|d: int|
            {
                &&& in_draw(counts, rem, d)
                &&& next2.ballots@ == l2.ballots@
                &&& next2.weights@ == l2.weights@
                &&& next2.remaining@ == rem.update(d, false)
                &&& is_elimination_record(r2, round, names, counts, rem, d)
            };
        assert(names[d1] == names[d2]);
        if d1 != d2 {
            if d1 < d2 {
                assert(names[d1]@ != names[d2]@);
            } else {
                assert(names[d2]@ != names[d1]@);
            }
        }
    }
}

} // verus!
