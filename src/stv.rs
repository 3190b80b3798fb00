//! The entry point of the tabulator: input validation, the initial ledger,
//! and the round loop.

use vstd::prelude::*;
use rand::rngs::StdRng;
use rand::seq::SliceRandom;
use crate::laws::{law_enough_seats_accepts_all_at_once, law_winners_fill_the_seats, min_nat};
use crate::models::{CandidateResultData, PassingCandidateResult, VotingResult, VotingRoundResult};
use crate::round::{
    count_marked, draw_flags, draw_members, elected_flags, elected_now, flagged_indices, in_draw,
    is_election_record, is_elimination_record, lemma_draw_nonempty, lemma_marked_clear_one,
    lemma_marked_remove, lemma_marked_upto_bound, marked, marked_upto, round_entries,
};
use crate::tally::{rank_candidates, Ledger, VOTE_UNIT};

verus! {

/// Why a tabulation was refused.
#[derive(Debug, Clone, PartialEq, Eq)]
pub enum TabulationError {
    /// A ballot names an unknown candidate or names a candidate twice.
    InvalidInput,
    /// An internal invariant failed.
    AlgorithmError(&'static str),
}

/// No two candidates share a name.
pub open spec fn names_unique(names: Seq<String>) -> bool {
    forall|i: int, j: int| 0 <= i < j < names.len() ==> (#[trigger] names[i])@ != (#[trigger] names[j])@
}

/// `name` is one of the candidates.
pub open spec fn is_candidate(names: Seq<String>, name: Seq<char>) -> bool {
    exists|c: int| 0 <= c < names.len() && names[c]@ == name
}

/// Every name on the ballot is a candidate, and none appears twice.
pub open spec fn ballot_is_valid(names: Seq<String>, ballot: Seq<String>) -> bool {
    &&& forall|k: int| 0 <= k < ballot.len() ==> is_candidate(names, #[trigger] ballot[k]@)
    &&& forall|k1: int, k2: int|
        0 <= k1 < k2 < ballot.len() ==> (#[trigger] ballot[k1])@ != (#[trigger] ballot[k2])@
}

pub open spec fn ballots_are_valid(names: Seq<String>, votes: Seq<Vec<String>>) -> bool {
    forall|b: int| 0 <= b < votes.len() ==> ballot_is_valid(names, #[trigger] votes[b]@)
}

/// The position of candidate `name` in the candidate list.
pub open spec fn index_of_name(names: Seq<String>, name: Seq<char>) -> int {
    choose|c: int| 0 <= c < names.len() && names[c]@ == name
}

/// A ballot written with candidate positions in place of names.
pub open spec fn encoded(names: Seq<String>, ballot: Seq<String>) -> Seq<usize> {
    Seq::new(ballot.len(), |k: int| index_of_name(names, ballot[k]@) as usize)
}

/// Looks up the position of a candidate by name.
fn candidate_index(names: &Vec<String>, name: &String) -> (r: Option<usize>)
    requires
        names_unique(names@),
    ensures
        r matches Some(c) ==> c < names@.len() && names@[c as int]@ == name@ && c == index_of_name(
            names@,
            name@,
        ),
        r is None ==> !is_candidate(names@, name@),
{
    let mut c: usize = 0;
    while c < names.len()
        invariant
            names_unique(names@),
            c <= names@.len(),
            forall|i: int| 0 <= i < c ==> names@[i]@ != name@,
        decreases names@.len() - c,
    {
        if names[c] == *name {
            proof {
                assert(is_candidate(names@, name@));
                let j = index_of_name(names@, name@);
                assert(0 <= j < names@.len() && names@[j]@ == name@);
                assert(names@[c as int]@ == name@);
                assert(j == c) by {
                    if j < c {
                        assert(names@[j]@ != names@[c as int]@);
                    } else if j > c {
                        assert(names@[c as int]@ != names@[j]@);
                    }
                }
            }
            return Some(c);
        }
        c = c + 1;
    }
    None
}

/// Writes a ballot with candidate positions, refusing it when it names an
/// unknown candidate or a candidate twice.
pub fn encode_ballot(names: &Vec<String>, ballot: &Vec<String>) -> (r: Result<
    Vec<usize>,
    TabulationError,
>)
    requires
        names_unique(names@),
    ensures
        r matches Ok(v) ==> ballot_is_valid(names@, ballot@) && v@ == encoded(names@, ballot@),
        r is Err ==> r == Err::<Vec<usize>, TabulationError>(TabulationError::InvalidInput)
            && !ballot_is_valid(names@, ballot@),
{
    let n = names.len();
    let mut seen: Vec<bool> = vec![false; n];
    let mut v: Vec<usize> = Vec::new();
    let mut k: usize = 0;
    while k < ballot.len()
        invariant
            names_unique(names@),
            n == names@.len(),
            seen@.len() == n,
            k <= ballot@.len(),
            v@ =~= encoded(names@, ballot@.subrange(0, k as int)),
            forall|j: int| 0 <= j < k ==> is_candidate(names@, #[trigger] ballot@[j]@),
            forall|j: int| 0 <= j < k ==> index_of_name(names@, #[trigger] ballot@[j]@) < n,
            forall|j1: int, j2: int|
                0 <= j1 < j2 < k ==> (#[trigger] ballot@[j1])@ != (#[trigger] ballot@[j2])@,
            forall|c: int|
                0 <= c < n ==> (seen@[c] <==> exists|j: int|
                    0 <= j < k && index_of_name(names@, #[trigger] ballot@[j]@) == c),
        decreases ballot@.len() - k,
    {
        let found = candidate_index(names, &ballot[k]);
        match found {
            None => {
                return Err(TabulationError::InvalidInput);
            },
            Some(c) => {
                assert(is_candidate(names@, ballot@[k as int]@));
                if seen[c] {
                    proof {
                        let j = choose|j: int|
                            0 <= j < k && index_of_name(names@, #[trigger] ballot@[j]@) == c;
                        let a = index_of_name(names@, ballot@[j]@);
                        let b = index_of_name(names@, ballot@[k as int]@);
                        assert(names@[a]@ == ballot@[j]@);
                        assert(names@[b]@ == ballot@[k as int]@);
                        assert(!ballot_is_valid(names@, ballot@)) by {
                            assert(ballot@[j]@ == ballot@[k as int]@);
                        }
                    }
                    return Err(TabulationError::InvalidInput);
                }
                proof {
                    assert forall|j: int| 0 <= j < k implies (#[trigger] ballot@[j])@ != ballot@[k as int]@ by {
                        if ballot@[j]@ == ballot@[k as int]@ {
                            assert(index_of_name(names@, ballot@[j]@) == c);
                        }
                    }
                }
                seen.set(c, true);
                v.push(c);
                proof {
                    assert forall|cc: int| 0 <= cc < n implies (seen@[cc] <==> exists|j: int|
                        0 <= j < k + 1 && index_of_name(names@, #[trigger] ballot@[j]@) == cc) by {
                        if cc == c {
                            assert(index_of_name(names@, ballot@[k as int]@) == cc);
                        }
                        if exists|j: int| 0 <= j < k + 1 && index_of_name(names@, #[trigger] ballot@[j]@) == cc {
                            let j = choose|j: int| 0 <= j < k + 1 && index_of_name(names@, #[trigger] ballot@[j]@) == cc;
                            if j < k {
                                assert(seen@[cc]);
                            }
                        }
                    }
                }
                k = k + 1;
            },
        }
    }
    assert(ballot@.subrange(0, k as int) =~= ballot@);
    Ok(v)
}

/// Every ballot, written with candidate positions.
pub open spec fn encoded_ballots(names: Seq<String>, votes: Seq<Vec<String>>) -> Seq<Seq<usize>> {
    Seq::new(votes.len(), |b: int| encoded(names, votes[b]@))
}

/// Writes every ballot with candidate positions; refuses the whole input
/// when one ballot is invalid.
pub fn encode_ballots(names: &Vec<String>, votes: &Vec<Vec<String>>) -> (r: Result<
    Vec<Vec<usize>>,
    TabulationError,
>)
    requires
        names_unique(names@),
    ensures
        r matches Ok(enc) ==> ballots_are_valid(names@, votes@) && enc.deep_view()
            == encoded_ballots(names@, votes@),
        r is Err ==> r == Err::<Vec<Vec<usize>>, TabulationError>(TabulationError::InvalidInput)
            && !ballots_are_valid(names@, votes@),
{
    let mut enc: Vec<Vec<usize>> = Vec::new();
    let mut b: usize = 0;
    while b < votes.len()
        invariant
            names_unique(names@),
            b <= votes@.len(),
            enc.deep_view() =~= encoded_ballots(names@, votes@.subrange(0, b as int)),
            forall|i: int| 0 <= i < b ==> ballot_is_valid(names@, #[trigger] votes@[i]@),
        decreases votes@.len() - b,
    {
        match encode_ballot(names, &votes[b]) {
            Ok(v) => {
                let ghost old_enc = enc.deep_view();
                let ghost vv = v.deep_view();
                assert(vv =~= v@);
                enc.push(v);
                assert(enc.deep_view() =~= old_enc.push(vv));
                assert(votes@.subrange(0, b + 1) =~= votes@.subrange(0, b as int).push(votes@[b as int]));
                b = b + 1;
            },
            Err(e) => {
                return Err(e);
            },
        }
    }
    assert(votes@.subrange(0, b as int) =~= votes@);
    Ok(enc)
}

/// How many of the first `upto` ballots are non-empty.
pub open spec fn nonempty_upto(votes: Seq<Vec<String>>, upto: int) -> nat
    decreases upto,
{
    if upto <= 0 {
        0
    } else {
        nonempty_upto(votes, upto - 1) + if votes[upto - 1]@.len() > 0 {
            1nat
        } else {
            0nat
        }
    }
}

/// The number of valid (non-empty) ballots.
pub open spec fn valid_ballot_count(votes: Seq<Vec<String>>) -> nat {
    nonempty_upto(votes, votes.len() as int)
}

/// The Droop quota `valid / (seats + 1) + 1`, in units, not rounded to a
/// whole vote.
pub open spec fn quota_units(valid: nat, seats: nat) -> int {
    (valid * VOTE_UNIT) as int / ((seats + 1) as int) + VOTE_UNIT
}

/// Counts the non-empty ballots.
pub fn count_valid_ballots(votes: &Vec<Vec<String>>) -> (k: usize)
    ensures
        k == valid_ballot_count(votes@),
        k <= votes@.len(),
{
    let mut k: usize = 0;
    let mut b: usize = 0;
    while b < votes.len()
        invariant
            b <= votes@.len(),
            k == nonempty_upto(votes@, b as int),
            k <= b,
        decreases votes@.len() - b,
    {
        if votes[b].len() > 0 {
            k = k + 1;
        }
        b = b + 1;
    }
    k
}

/// Computes the quota.
pub fn quota_for(valid: usize, seats: usize) -> (q: u64)
    requires
        valid * VOTE_UNIT <= u64::MAX,
        seats >= 1,
    ensures
        q == quota_units(valid as nat, seats as nat),
{
    let total: u64 = (valid as u64) * VOTE_UNIT;
    assert(total as int / (seats + 1) <= total / 2) by (nonlinear_arith)
        requires
            seats >= 1,
            total >= 0,
    ;
    let share: u128 = (total as u128) / ((seats as u128) + 1);
    (share as u64) + VOTE_UNIT
}

/// The ledger before the first round: every candidate remains and every
/// fragment has the weight of one whole vote.
pub open spec fn is_initial_ledger(l: Ledger, names: Seq<String>, votes: Seq<Vec<String>>) -> bool {
    &&& l.ballot_seqs() == encoded_ballots(names, votes)
    &&& l.remaining@ == Seq::new(names.len(), |c: int| true)
    &&& l.weights@ == Seq::new(votes.len(), |b: int| VOTE_UNIT)
}

#[verifier::external_type_specification]
#[verifier::external_body]
pub struct ExStdRng(StdRng);

/// Relies on rand's `SliceRandom::choose`: `None` exactly for an empty
/// slice, otherwise one of its elements, drawn from `rng`.
#[verifier::external_body]
fn choose_one(items: &Vec<usize>, rng: &mut StdRng) -> (r: Option<usize>)
    ensures
        r is None <==> items@.len() == 0,
        r matches Some(x) ==> items@.contains(x),
{
    items.as_slice().choose(rng).copied()
}

/// The current count of every candidate.
pub open spec fn counts_of(l: Ledger) -> Seq<u64> {
    Seq::new(l.remaining@.len(), |c: int| l.count(c) as u64)
}

/// No round is left: every seat is filled or no candidate remains.
pub open spec fn finished(l: Ledger, elected: nat, seats: nat) -> bool {
    elected == seats || marked(l.remaining@) == 0
}

/// Under forced acceptance every remaining candidate is elected.
pub open spec fn forced_acceptance(l: Ledger, elected: nat, seats: nat) -> bool {
    marked(l.remaining@) + elected <= seats
}

/// Round number `round`, played on ledger `l` after `elected` seats were
/// filled, is recorded as `r`, leaves the ledger `next` and elects `newly`
/// candidates.
///
/// When some candidate is elected (by quota, or all under forced
/// acceptance) they all leave the ledger at once and the fragments they held
/// are rescaled. Otherwise one candidate of the draw for the lowest count,
/// `d`, leaves the ledger and its fragments keep their weight.
pub open spec fn is_round(
    names: Seq<String>,
    l: Ledger,
    quota: u64,
    seats: nat,
    elected: nat,
    round: int,
    r: VotingRoundResult,
    next: Ledger,
    newly: nat,
) -> bool {
    let counts = counts_of(l);
    let e = elected_flags(counts, l.remaining@, quota, forced_acceptance(l, elected, seats));
    if marked(e) > 0 {
        &&& newly == marked(e)
        &&& next.ballots@ == l.ballots@
        &&& next.remaining@ == Seq::new(l.remaining@.len(), |c: int| l.remaining@[c] && !e[c])
        &&& next.weights@ == Seq::new(
            l.weights@.len(),
            |b: int| l.weight_after_election(e, quota as int, b),
        )
        &&& is_election_record(r, round, names, counts, l.remaining@, e)
    } else {
        &&& newly == 0
        &&& exists|d: int|
            {
                &&& in_draw(counts, l.remaining@, d)
                &&& next.ballots@ == l.ballots@
                &&& next.weights@ == l.weights@
                &&& next.remaining@ == l.remaining@.update(d, false)
                &&& is_elimination_record(r, round, names, counts, l.remaining@, d)
            }
    }
}

/// Plays one round: elects the candidates that reach the quota (or all
/// remaining ones under forced acceptance) and transfers their surplus, or
/// else eliminates one candidate of the lowest count, breaking a draw with
/// `rng`.
fn play_round(
    ledger: &mut Ledger,
    names: &Vec<String>,
    quota: u64,
    seats: usize,
    elected: usize,
    round: usize,
    rng: &mut StdRng,
) -> (r: Result<(VotingRoundResult, usize), TabulationError>)
    requires
        old(ledger).wf(),
        names@.len() == old(ledger).num_candidates(),
        !finished(*old(ledger), elected as nat, seats as nat),
        elected + marked(old(ledger).remaining@) <= names@.len(),
        round <= i32::MAX,
    ensures
        r matches Ok((rec, k)) && is_round(
            names@,
            *old(ledger),
            quota,
            seats as nat,
            elected as nat,
            round as int,
            rec,
            *final(ledger),
            k as nat,
        ) && final(ledger).wf() && final(ledger).num_candidates() == old(ledger).num_candidates()
            && k + marked(final(ledger).remaining@) < marked(old(ledger).remaining@) + 1
            && marked(final(ledger).remaining@) < marked(old(ledger).remaining@),
{
    let ghost start = *ledger;
    let n = names.len();
    let counts = ledger.current_counts();
    assert(counts@ =~= counts_of(start));
    let left = count_marked(&ledger.remaining);
    let forced = left + elected <= seats;
    let e = elected_now(&counts, &ledger.remaining, quota, forced);
    let k = count_marked(&e);
    let no_flags: Vec<bool> = vec![false; n];
    assert(no_flags@ =~= Seq::new(counts@.len(), |c: int| false));
    if k > 0 {
        let order = rank_candidates(&counts, &ledger.remaining);
        let entries = round_entries(&order, names, &counts, &e, &no_flags);
        ledger.transfer_surplus(&e, &counts, quota);
        let rec = VotingRoundResult {
            round: round as i32,
            candidate_results: entries,
            dropped_candidate: None,
        };
        proof {
            lemma_marked_remove(start.remaining@, e@, n as int);
            assert(is_election_record(rec, round as int, names@, counts@, start.remaining@, e@));
        }
        Ok((rec, k))
    } else {
        let draw = draw_members(&counts, &ledger.remaining);
        let tied = flagged_indices(&draw);
        proof {
            lemma_draw_nonempty(counts@, start.remaining@);
        }
        let d = match choose_one(&tied, rng) {
            Some(d) => d,
            None => {
                return Err(TabulationError::AlgorithmError("no candidate to eliminate"));
            },
        };
        let contested = tied.len() > 1;
        let mut flags: Vec<bool> = Vec::new();
        let mut c: usize = 0;
        while c < n
            invariant
                n == draw@.len(),
                c <= n,
                flags@ =~= Seq::new(c as nat, |i: int| draw@[i] && contested),
            decreases n - c,
        {
            flags.push(draw[c] && contested);
            c = c + 1;
        }
        ledger.eliminate(d);
        let order = rank_candidates(&counts, &ledger.remaining);
        let entries = round_entries(&order, names, &counts, &no_flags, &flags);
        let rec = VotingRoundResult {
            round: round as i32,
            candidate_results: entries,
            dropped_candidate: Some(
                CandidateResultData {
                    name: names[d].clone(),
                    vote_count: counts[d],
                    is_draw: contested,
                },
            ),
        };
        proof {
            lemma_marked_clear_one(start.remaining@, d as int, n as int);
            assert(is_elimination_record(rec, round as int, names@, counts@, start.remaining@, d as int));
        }
        Ok((rec, 0))
    }
}

/// A tabulation that has reached ledger `l` after filling `elected` seats,
/// with `round` the number of the next round, goes on with exactly the
/// rounds `rounds` and then stops.
pub open spec fn follows(
    names: Seq<String>,
    l: Ledger,
    quota: u64,
    seats: nat,
    elected: nat,
    round: int,
    rounds: Seq<VotingRoundResult>,
) -> bool
    decreases rounds.len(),
{
    if rounds.len() == 0 {
        finished(l, elected, seats)
    } else {
        &&& !finished(l, elected, seats)
        &&& exists|next: Ledger, newly: nat|
            {
                &&& is_round(names, l, quota, seats, elected, round, rounds[0], next, newly)
                &&& follows(names, next, quota, seats, elected + newly, round + 1, rounds.drop_first())
            }
    }
}

/// The names of the selected entries, in order.
pub open spec fn selected_names(entries: Seq<PassingCandidateResult>) -> Seq<String>
    decreases entries.len(),
{
    if entries.len() == 0 {
        Seq::empty()
    } else {
        let rest = selected_names(entries.drop_last());
        if entries.last().is_selected {
            rest.push(entries.last().data.name)
        } else {
            rest
        }
    }
}

/// The candidates selected in the rounds, in round order.
pub open spec fn winners_of(rounds: Seq<VotingRoundResult>) -> Seq<String>
    decreases rounds.len(),
{
    if rounds.len() == 0 {
        Seq::empty()
    } else {
        winners_of(rounds.drop_last()) + selected_names(rounds.last().candidate_results@)
    }
}

/// The first of the rounds that a tabulation goes on with, and the ledger
/// it leaves.
pub proof fn lemma_first_round(
    names: Seq<String>,
    l: Ledger,
    quota: u64,
    seats: nat,
    elected: nat,
    round: int,
    rounds: Seq<VotingRoundResult>,
) -> (res: (Ledger, nat))
    requires
        follows(names, l, quota, seats, elected, round, rounds),
        rounds.len() > 0,
    ensures
        !finished(l, elected, seats),
        is_round(names, l, quota, seats, elected, round, rounds[0], res.0, res.1),
        follows(names, res.0, quota, seats, elected + res.1, round + 1, rounds.drop_first()),
{
    choose|next: Ledger, newly: nat|
        {
            &&& is_round(names, l, quota, seats, elected, round, rounds[0], next, newly)
            &&& follows(names, next, quota, seats, elected + newly, round + 1, rounds.drop_first())
        }
}

proof fn lemma_follows_step(
    names: Seq<String>,
    l: Ledger,
    quota: u64,
    seats: nat,
    elected: nat,
    round: int,
    r: VotingRoundResult,
    next: Ledger,
    newly: nat,
)
    requires
        !finished(l, elected, seats),
        is_round(names, l, quota, seats, elected, round, r, next, newly),
    ensures
        forall|rest: Seq<VotingRoundResult>|
            follows(names, next, quota, seats, elected + newly, round + 1, rest) ==> #[trigger] follows(
                names,
                l,
                quota,
                seats,
                elected,
                round,
                seq![r] + rest,
            ),
{
    assert forall|rest: Seq<VotingRoundResult>|
        follows(names, next, quota, seats, elected + newly, round + 1, rest) implies #[trigger] follows(
            names,
            l,
            quota,
            seats,
            elected,
            round,
            seq![r] + rest,
        ) by {
        let all = seq![r] + rest;
        assert(all[0] == r);
        assert(all.drop_first() =~= rest);
    }
}

pub proof fn lemma_marked_all(n: int)
    requires
        n >= 0,
    ensures
        marked(Seq::new(n as nat, |c: int| true)) == n,
{
    let s = Seq::new(n as nat, |c: int| true);
    assert forall|k: int| 0 <= k <= n implies marked_upto(s, k) == k by {
        lemma_marked_prefix_all(s, k);
    }
}

proof fn lemma_marked_prefix_all(s: Seq<bool>, k: int)
    requires
        0 <= k <= s.len(),
        forall|c: int| 0 <= c < s.len() ==> s[c],
    ensures
        marked_upto(s, k) == k,
    decreases k,
{
    if k > 0 {
        lemma_marked_prefix_all(s, k - 1);
    }
}

/// Tabulates an election of `number_of_winners` seats by the Single
/// Transferable Vote with Gregory surplus transfer. Draws for the lowest
/// count are broken with `rng`.
pub fn calculate_stv_result(
    candidates: Vec<String>,
    votes: Vec<Vec<String>>,
    number_of_winners: usize,
    rng: &mut StdRng,
) -> (r: Result<VotingResult, TabulationError>)
    requires
        names_unique(candidates@),
        number_of_winners >= 1,
        votes@.len() * VOTE_UNIT <= u64::MAX,
        candidates@.len() < i32::MAX,
    ensures
        !ballots_are_valid(candidates@, votes@) <==> r == Err::<VotingResult, TabulationError>(
            TabulationError::InvalidInput,
        ),
        (ballots_are_valid(candidates@, votes@) && candidates@.len() == 0) <==> r matches Err(
            TabulationError::AlgorithmError(_),
        ),
        r matches Ok(res) ==> {
            &&& res.winners@ == winners_of(res.round_results@)
            &&& res.winners@.len() == min_nat(number_of_winners as nat, candidates@.len())
            &&& number_of_winners >= candidates@.len() ==> res.round_results@.len() == 1
                && res.round_results@[0].dropped_candidate is None
            &&& exists|l: Ledger|
                {
                    &&& is_initial_ledger(l, candidates@, votes@)
                    &&& follows(
                        candidates@,
                        l,
                        quota_units(valid_ballot_count(votes@), number_of_winners as nat) as u64,
                        number_of_winners as nat,
                        0,
                        1,
                        res.round_results@,
                    )
                }
        },
{
    let seats = number_of_winners;
    let ballots = match encode_ballots(&candidates, &votes) {
        Ok(enc) => enc,
        Err(e) => {
            return Err(e);
        },
    };
    let n = candidates.len();
    if n == 0 {
        return Err(TabulationError::AlgorithmError("no candidates to compare"));
    }
    let valid = count_valid_ballots(&votes);
    proof {
        assert(valid * VOTE_UNIT <= votes@.len() * VOTE_UNIT) by (nonlinear_arith)
            requires
                valid <= votes@.len(),
        ;
    }
    let quota = quota_for(valid, seats);
    let remaining: Vec<bool> = vec![true; n];
    let weights: Vec<u64> = vec![VOTE_UNIT; votes.len()];
    let mut ledger = Ledger { ballots, remaining, weights };
    proof {
        assert(ledger.remaining@ =~= Seq::new(n as nat, |c: int| true));
        assert(ledger.weights@ =~= Seq::new(votes@.len(), |b: int| VOTE_UNIT));
        lemma_marked_all(n as int);
        assert(ledger.ballot_seqs().len() == votes@.len());
        assert(ledger.wf());
    }
    let ghost init = ledger;
    let mut rounds: Vec<VotingRoundResult> = Vec::new();
    let mut winners: Vec<String> = Vec::new();
    let mut elected: usize = 0;
    let mut round: usize = 1;
    let mut left: usize = n;
    while !(elected == seats || left == 0)
        invariant
            is_initial_ledger(init, candidates@, votes@),
            init.wf(),
            ledger.wf(),
            ledger.num_candidates() == n,
            n == candidates@.len(),
            n < i32::MAX,
            quota == quota_units(valid as nat, seats as nat),
            valid == valid_ballot_count(votes@),
            left == marked(ledger.remaining@),
            elected + left <= n,
            round + left <= n + 1,
            round >= 1,
            forall|rest: Seq<VotingRoundResult>|
                follows(candidates@, ledger, quota, seats as nat, elected as nat, round as int, rest)
                    ==> #[trigger] follows(candidates@, init, quota, seats as nat, 0, 1, rounds@ + rest),
            winners@ == winners_of(rounds@),
        decreases left,
    {
        if round > n + 1 {
            return Err(TabulationError::AlgorithmError("Too many voting rounds!"));
        }
        let ghost before = ledger;
        let (rec, k) = match play_round(&mut ledger, &candidates, quota, seats, elected, round, rng) {
            Ok(x) => x,
            Err(e) => {
                return Err(e);
            },
        };
        let mut i: usize = 0;
        while i < rec.candidate_results.len()
            invariant
                i <= rec.candidate_results@.len(),
                winners@ == winners_of(rounds@) + selected_names(
                    rec.candidate_results@.subrange(0, i as int),
                ),
            decreases rec.candidate_results@.len() - i,
        {
            let ghost prev = rec.candidate_results@.subrange(0, i as int);
            let ghost next = rec.candidate_results@.subrange(0, i + 1);
            assert(next.drop_last() =~= prev);
            if rec.candidate_results[i].is_selected {
                winners.push(rec.candidate_results[i].data.name.clone());
            }
            proof {
                assert(winners@ =~= winners_of(rounds@) + selected_names(next));
            }
            i = i + 1;
        }
        proof {
            assert(rec.candidate_results@.subrange(0, i as int) =~= rec.candidate_results@);
            lemma_follows_step(
                candidates@,
                before,
                quota,
                seats as nat,
                elected as nat,
                round as int,
                rec,
                ledger,
                k as nat,
            );
            assert forall|rest: Seq<VotingRoundResult>|
                follows(candidates@, ledger, quota, seats as nat, (elected + k) as nat, round + 1, rest)
                    implies #[trigger] follows(
                    candidates@,
                    init,
                    quota,
                    seats as nat,
                    0,
                    1,
                    rounds@.push(rec) + rest,
                ) by {
                assert(follows(candidates@, before, quota, seats as nat, elected as nat, round as int, seq![rec] + rest));
                assert(rounds@ + (seq![rec] + rest) =~= rounds@.push(rec) + rest);
            }
        }
        let ghost old_rounds = rounds@;
        rounds.push(rec);
        proof {
            assert(rounds@.drop_last() =~= old_rounds);
        }
        elected = elected + k;
        round = round + 1;
        left = count_marked(&ledger.remaining);
    }
    proof {
        assert(follows(candidates@, ledger, quota, seats as nat, elected as nat, round as int, Seq::empty()));
        assert(rounds@ + Seq::empty() =~= rounds@);
        law_winners_fill_the_seats(candidates@, votes@, init, seats as nat, rounds@);
        if seats >= n {
            law_enough_seats_accepts_all_at_once(candidates@, votes@, init, quota, seats as nat, rounds@);
        }
    }
    Ok(VotingResult { round_results: rounds, winners })
}

} // verus!
