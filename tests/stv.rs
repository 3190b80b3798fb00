use rand::rngs::StdRng;
use rand::SeedableRng;
use stv_tally::models::{CandidateId, VotingResult, VotingRoundResult};
use stv_tally::stv::{calculate_stv_result, TabulationError};
use stv_tally::tally::VOTE_UNIT;

fn names(list: &[&str]) -> Vec<CandidateId> {
    list.iter().map(|s| s.to_string()).collect()
}

/// A ballot of one-letter candidate names, in preference order.
fn ballot(prefs: &str) -> Vec<CandidateId> {
    prefs.chars().map(|c| c.to_string()).collect()
}

fn repeat(prefs: &str, times: usize) -> Vec<Vec<CandidateId>> {
    (0..times).map(|_| ballot(prefs)).collect()
}

fn as_votes(units: u64) -> f64 {
    units as f64 / VOTE_UNIT as f64
}

fn tabulate(candidates: &[&str], votes: Vec<Vec<CandidateId>>, seats: usize) -> VotingResult {
    let mut rng = StdRng::seed_from_u64(2024);
    match calculate_stv_result(names(candidates), votes, seats, &mut rng) {
        Ok(res) => res,
        Err(e) => panic!("{:?}", e),
    }
}

/// Checks one round: the listed candidates as (name, votes, selected, draw),
/// and the dropped candidate as (name, votes, draw).
fn check_round(
    r: &VotingRoundResult,
    round: i32,
    entries: &[(&str, f64, bool, bool)],
    dropped: Option<(&str, f64, bool)>,
) {
    assert_eq!(r.round, round);
    assert_eq!(r.candidate_results.len(), entries.len(), "round {}", round);
    for (got, want) in r.candidate_results.iter().zip(entries.iter()) {
        assert_eq!(got.data.name, want.0, "round {}", round);
        assert!(
            (as_votes(got.data.vote_count) - want.1).abs() <= 1e-6,
            "round {}: {} has {} votes, expected {}",
            round,
            want.0,
            as_votes(got.data.vote_count),
            want.1
        );
        assert_eq!(got.is_selected, want.2, "round {}: {}", round, want.0);
        assert_eq!(got.data.is_draw, want.3, "round {}: {}", round, want.0);
    }
    match (&r.dropped_candidate, dropped) {
        (None, None) => {}
        (Some(got), Some(want)) => {
            assert_eq!(got.name, want.0);
            assert!((as_votes(got.vote_count) - want.1).abs() <= 1e-6);
            assert_eq!(got.is_draw, want.2);
        }
        (got, want) => panic!("round {}: dropped {:?}, expected {:?}", round, got, want),
    }
}

#[test]
fn test_single_candidate_is_selected_with_no_votes() {
    let res = tabulate(&["a"], vec![], 1);
    assert_eq!(res.round_results.len(), 1);
    check_round(&res.round_results[0], 1, &[("a", 0.0, true, false)], None);
    assert_eq!(res.winners, names(&["a"]));
}

#[test]
fn test_single_candidate_is_selected_with_one_vote() {
    let res = tabulate(&["a"], vec![ballot("a")], 1);
    assert_eq!(res.round_results.len(), 1);
    check_round(&res.round_results[0], 1, &[("a", 1.0, true, false)], None);
    assert_eq!(res.winners, names(&["a"]));
}

#[test]
fn test_two_candidates_one_vote() {
    let res = tabulate(&["a", "b"], vec![ballot("a")], 1);
    assert_eq!(res.round_results.len(), 2);
    check_round(
        &res.round_results[0],
        1,
        &[("a", 1.0, false, false)],
        Some(("b", 0.0, false)),
    );
    check_round(&res.round_results[1], 2, &[("a", 1.0, true, false)], None);
    assert_eq!(res.winners, names(&["a"]));
}

#[test]
fn test_two_candidates_two_spots_one_vote() {
    let res = tabulate(&["a", "b"], vec![ballot("a")], 2);
    assert_eq!(res.round_results.len(), 1);
    check_round(
        &res.round_results[0],
        1,
        &[("a", 1.0, true, false), ("b", 0.0, true, false)],
        None,
    );
    assert_eq!(res.winners, names(&["a", "b"]));
}

#[test]
fn test_surplus_votes_no_next_candidate_and_double_transfer() {
    let votes = vec![ballot("acb"), ballot("abc"), ballot("abc"), ballot("a"), ballot("b")];
    let quota = (5.0 / (2.0 + 1.0)) + 1.0;
    let res = tabulate(&["a", "b", "c"], votes, 2);
    assert_eq!(res.round_results.len(), 3);
    check_round(
        &res.round_results[0],
        1,
        &[("a", 4.0, true, false), ("b", 1.0, false, false), ("c", 0.0, false, false)],
        None,
    );
    check_round(
        &res.round_results[1],
        2,
        &[("b", 1.0 + (4.0 - quota) * (2.0 / 4.0), false, false)],
        Some(("c", (4.0 - quota) * (1.0 / 4.0), false)),
    );
    check_round(
        &res.round_results[2],
        3,
        &[("b", 1.0 + (4.0 - quota) * ((2.0 / 4.0) + (1.0 / 4.0)), true, false)],
        None,
    );
    assert_eq!(res.winners, names(&["a", "b"]));
}

#[test]
fn test_candidates_over_quota_are_elected() {
    let votes = [repeat("ab", 15), repeat("bc", 11), repeat("bd", 1), repeat("ac", 1), repeat("c", 1)]
        .concat();
    let res = tabulate(&["a", "b", "c", "d"], votes, 2);
    check_round(
        &res.round_results[0],
        1,
        &[
            ("a", 16.0, true, false),
            ("b", 12.0, true, false),
            ("c", 1.0, false, false),
            ("d", 0.0, false, false),
        ],
        None,
    );
}

#[test]
fn test_gregory_transfer_proportions() {
    let votes = [repeat("ab", 10), repeat("ac", 9), repeat("a", 8), repeat("b", 10), repeat("c", 9)]
        .concat();
    let quota = (votes.len() as f64 / (2.0 + 1.0)) + 1.0;
    let res = tabulate(&["a", "b", "c"], votes, 2);
    assert_eq!(res.round_results.len(), 3);
    check_round(
        &res.round_results[0],
        1,
        &[("a", 27.0, true, false), ("b", 10.0, false, false), ("c", 9.0, false, false)],
        None,
    );
    check_round(
        &res.round_results[1],
        2,
        &[("b", 10.0 + (27.0 - quota) * (10.0 / 27.0), false, false)],
        Some(("c", 9.0 + (27.0 - quota) * (9.0 / 27.0), false)),
    );
    check_round(
        &res.round_results[2],
        3,
        &[("b", 10.0 + (27.0 - quota) * (10.0 / 27.0), true, false)],
        None,
    );
    assert_eq!(res.winners, names(&["a", "b"]));
}

#[test]
fn test_vote_transfer_chain() {
    let votes = [repeat("a", 6), repeat("b", 4), repeat("c", 2), repeat("dcba", 1)].concat();
    let res = tabulate(&["a", "b", "c", "d"], votes, 1);
    assert_eq!(res.round_results.len(), 4);
    check_round(
        &res.round_results[0],
        1,
        &[("a", 6.0, false, false), ("b", 4.0, false, false), ("c", 2.0, false, false)],
        Some(("d", 1.0, false)),
    );
    check_round(
        &res.round_results[1],
        2,
        &[("a", 6.0, false, false), ("b", 4.0, false, false)],
        Some(("c", 3.0, false)),
    );
    check_round(&res.round_results[2], 3, &[("a", 6.0, false, false)], Some(("b", 5.0, false)));
    check_round(&res.round_results[3], 4, &[("a", 7.0, true, false)], None);
    assert_eq!(res.winners, names(&["a"]));
}

#[test]
fn test_prodeko_chairman_2024() {
    let ballots = [
        "abcde", "bcdae", "bd", "cab", "cabed", "dacbe", "cbead", "dcbae", "adbce", "eabcd",
        "aebcd", "abdce", "adcbe", "adbce", "cbade", "b", "abced", "cbade", "adbec", "abce",
        "bcade", "aebdc", "dacbe", "daecb", "abcde", "badce", "c", "eabdc", "ebcda", "adcbe",
        "b", "abcde", "cdbae", "bacde", "dbcae", "caedb", "caedb", "cadbe", "c", "edacb",
        "abdce", "abdce", "bacde", "dcabe", "dbc", "acedb", "abced", "abcde", "bad", "eadcb",
        "a", "bca", "dabce", "abedc", "ebadc", "cbdae", "dcbea", "dbeca", "adcbe", "bdcea",
        "dcabe", "adcbe", "abcde", "ebadc", "acedb", "abdce", "cbead", "acdbe", "acbde", "bdcae",
        "abdce", "acbde", "bdaec", "adbce", "badce", "eca", "abced", "acbde", "abdce", "adcbe",
        "bdcea",
    ];
    let votes: Vec<Vec<CandidateId>> = ballots.iter().map(|b| ballot(b)).collect();
    let res = tabulate(&["a", "b", "c", "d", "e"], votes, 1);
    assert_eq!(res.round_results.len(), 3);
    check_round(
        &res.round_results[0],
        1,
        &[
            ("a", 34.0, false, false),
            ("b", 15.0, false, false),
            ("c", 13.0, false, false),
            ("d", 11.0, false, false),
        ],
        Some(("e", 8.0, false)),
    );
    check_round(
        &res.round_results[1],
        2,
        &[("a", 37.0, false, false), ("b", 18.0, false, false), ("c", 14.0, false, false)],
        Some(("d", 12.0, false)),
    );
    check_round(
        &res.round_results[2],
        3,
        &[("a", 42.0, true, false), ("b", 21.0, false, false), ("c", 18.0, false, false)],
        None,
    );
    assert_eq!(res.winners, names(&["a"]));
}

#[test]
fn surplus_split_between_next_preferences() {
    let votes = vec![ballot("acb"), ballot("abc"), ballot("abc")];
    let res = tabulate(&["a", "b", "c"], votes, 2);
    // quota = 3 / 3 + 1 = 2: a is elected with a surplus of one vote.
    check_round(
        &res.round_results[0],
        1,
        &[("a", 3.0, true, false), ("b", 0.0, false, false), ("c", 0.0, false, false)],
        None,
    );
    check_round(
        &res.round_results[1],
        2,
        &[("b", 2.0 / 3.0, false, false)],
        Some(("c", 1.0 / 3.0, false)),
    );
    check_round(&res.round_results[2], 3, &[("b", 1.0, true, false)], None);
    assert_eq!(res.winners, names(&["a", "b"]));
}

#[test]
fn draw_for_lowest_count_flags_every_member() {
    let votes = vec![ballot("a"), ballot("a"), ballot("a"), ballot("b"), ballot("c")];
    let res = tabulate(&["a", "b", "c"], votes, 1);
    let first = &res.round_results[0];
    let dropped = first.dropped_candidate.as_ref().expect("an elimination round");
    assert!(dropped.name == "b" || dropped.name == "c");
    assert!(dropped.is_draw);
    assert_eq!(as_votes(dropped.vote_count), 1.0);
    assert_eq!(first.candidate_results.len(), 2);
    assert_eq!(first.candidate_results[0].data.name, "a");
    assert!(!first.candidate_results[0].data.is_draw);
    assert_ne!(first.candidate_results[1].data.name, dropped.name);
    assert!(first.candidate_results[1].data.is_draw);
    assert_eq!(res.winners.len(), 1);
}

#[test]
fn same_seed_gives_same_result() {
    let votes = vec![ballot("ab"), ballot("ba"), ballot("c"), ballot("d"), ballot("cd")];
    let cands = names(&["a", "b", "c", "d"]);
    let mut rng1 = StdRng::seed_from_u64(99);
    let mut rng2 = StdRng::seed_from_u64(99);
    let r1 = calculate_stv_result(cands.clone(), votes.clone(), 2, &mut rng1);
    let r2 = calculate_stv_result(cands, votes, 2, &mut rng2);
    assert_eq!(r1, r2);
}

#[test]
fn enough_seats_accepts_everyone_at_once() {
    let votes = vec![ballot("b"), ballot("cb"), ballot("b")];
    let res = tabulate(&["a", "b", "c"], votes, 5);
    assert_eq!(res.round_results.len(), 1);
    check_round(
        &res.round_results[0],
        1,
        &[("b", 2.0, true, false), ("c", 1.0, true, false), ("a", 0.0, true, false)],
        None,
    );
    assert_eq!(res.winners, names(&["b", "c", "a"]));
}

#[test]
fn winners_fill_the_seats() {
    let votes = [repeat("abc", 4), repeat("bca", 3), repeat("cab", 2), repeat("d", 1)].concat();
    let res = tabulate(&["a", "b", "c", "d"], votes, 2);
    assert_eq!(res.winners.len(), 2);
    let res = tabulate(&["a", "b"], vec![ballot("a")], 3);
    assert_eq!(res.winners.len(), 2);
}

#[test]
fn empty_ballots_are_abstentions() {
    let votes = vec![vec![], ballot("a"), vec![], ballot("b"), ballot("a")];
    let res = tabulate(&["a", "b"], votes, 1);
    // quota = 3 / 2 + 1 = 2.5, so a (2 votes) is not elected at once.
    check_round(
        &res.round_results[0],
        1,
        &[("a", 2.0, false, false)],
        Some(("b", 1.0, false)),
    );
    assert_eq!(res.winners, names(&["a"]));
}

#[test]
fn unknown_candidate_is_invalid_input() {
    let mut rng = StdRng::seed_from_u64(1);
    let r = calculate_stv_result(names(&["a", "b"]), vec![ballot("c")], 1, &mut rng);
    assert_eq!(r, Err(TabulationError::InvalidInput));
}

#[test]
fn repeated_candidate_is_invalid_input() {
    let mut rng = StdRng::seed_from_u64(1);
    let r = calculate_stv_result(names(&["a", "b"]), vec![ballot("b"), ballot("aa")], 1, &mut rng);
    assert_eq!(r, Err(TabulationError::InvalidInput));
}

#[test]
fn no_candidates_is_an_algorithm_error() {
    let mut rng = StdRng::seed_from_u64(1);
    let r = calculate_stv_result(vec![], vec![vec![]], 1, &mut rng);
    assert!(matches!(r, Err(TabulationError::AlgorithmError(_))));
}

#[test]
fn weight_moves_but_is_not_created() {
    // Five valid ballots; a is elected in round 1 with 4 votes and a quota
    // of 5/3 + 1, so b and c hold 1 vote plus the surplus in round 2, and
    // the ballot listing only a is exhausted.
    let votes = vec![ballot("acb"), ballot("abc"), ballot("abc"), ballot("a"), ballot("b"), vec![]];
    let res = tabulate(&["a", "b", "c"], votes, 2);
    let quota = 5.0 / 3.0 + 1.0;
    let round1: f64 = res.round_results[0]
        .candidate_results
        .iter()
        .map(|c| as_votes(c.data.vote_count))
        .sum();
    assert!((round1 - 5.0).abs() <= 1e-6);
    let r2 = &res.round_results[1];
    let held: f64 = r2.candidate_results.iter().map(|c| as_votes(c.data.vote_count)).sum::<f64>()
        + as_votes(r2.dropped_candidate.as_ref().unwrap().vote_count);
    let exhausted = (4.0 - quota) * (1.0 / 4.0);
    assert!((held + exhausted + quota - 5.0).abs() <= 1e-6);
}

#[test]
fn resolved_candidates_are_not_listed_again() {
    let votes = [repeat("ab", 5), repeat("ba", 4), repeat("cb", 3), repeat("dc", 2), repeat("e", 1)]
        .concat();
    let res = tabulate(&["a", "b", "c", "d", "e"], votes, 2);
    for (i, r) in res.round_results.iter().enumerate() {
        let mut gone: Vec<&String> =
            r.candidate_results.iter().filter(|c| c.is_selected).map(|c| &c.data.name).collect();
        if let Some(d) = &r.dropped_candidate {
            gone.push(&d.name);
        }
        for later in &res.round_results[i + 1..] {
            for name in &gone {
                assert!(later.candidate_results.iter().all(|c| &&c.data.name != name));
                assert!(later.dropped_candidate.as_ref().map_or(true, |d| &&d.name != name));
            }
        }
    }
    assert_eq!(res.winners.len(), 2);
}
