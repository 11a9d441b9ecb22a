use std::collections::HashMap;

use good_stv::election::ElectionResults;
use good_stv::{Election, ElectionError};
use rand::rngs::StdRng;
use rand::SeedableRng;

fn names(v: &[&str]) -> Vec<String> {
    v.iter().map(|s| s.to_string()).collect()
}

fn as_map(records: &[(String, u64)]) -> HashMap<String, u64> {
    records.iter().cloned().collect()
}

fn map_of(pairs: &[(&str, u64)]) -> HashMap<String, u64> {
    pairs.iter().map(|(k, v)| (k.to_string(), *v)).collect()
}

fn small_election_csv() -> &'static str {
    "a,b,c,d\nc,b,a\nc,b,a\nb,c\na,b\nc,b\nb,a\nc,b,a\nd,a\na,b"
}

fn check_read_csv() {
    let test_csv = "cand1,cand2,cand3\ncand1,cand2";
    let election = Election::from_reader(test_csv.as_bytes(), 10).unwrap();
    assert_eq!(
        *election.candidates(),
        vec!["cand1".to_owned(), "cand2".to_owned(), "cand3".to_owned()]
    );
    assert_eq!(
        *election.votes(),
        vec![vec!["cand1".to_owned(), "cand2".to_owned()]]
    );
}

fn check_quota_calculation() {
    let votes = vec![Vec::<String>::new(); 100];
    let election = Election::new(Vec::new(), votes, 2).unwrap();
    assert_eq!(election.quota(), 34);
}

fn check_election_results(results: &ElectionResults) {
    assert_eq!(as_map(results.elected()), map_of(&[("a", 4), ("c", 4)]));
    assert_eq!(as_map(results.eliminated()), map_of(&[("b", 2), ("d", 1)]));
}

fn check_spoiled_vote_removal() {
    let test_csv = "a\na\na\nz\na";
    let election = Election::from_reader(test_csv.as_bytes(), 1).unwrap();
    assert_eq!(1, election.num_spoiled_votes());
    let results = election.results().unwrap();
    assert_eq!(as_map(results.elected()), map_of(&[("a", 3)]));
    assert_eq!(as_map(results.eliminated()), HashMap::new());
}

#[test]
fn lib_test_read_csv() {
    check_read_csv();
}

#[test]
fn stv_test_read_csv() {
    check_read_csv();
}

#[test]
fn lib_test_quota_calculation() {
    check_quota_calculation();
}

#[test]
fn stv_test_quota_calculation() {
    check_quota_calculation();
}

#[test]
fn lib_test_election_results() {
    let election = Election::from_reader(small_election_csv().as_bytes(), 2).unwrap();
    let results = election.results().unwrap();
    check_election_results(&results);
}

#[test]
fn stv_test_election_results() {
    let election = Election::from_reader(small_election_csv().as_bytes(), 2).unwrap();
    let results = election.results().unwrap();
    check_election_results(&results);
}

#[test]
fn lib_test_spoiled_vote_removal() {
    check_spoiled_vote_removal();
}

#[test]
fn stv_test_spoiled_vote_removal() {
    check_spoiled_vote_removal();
}

#[test]
fn small_election_records_decisions_in_order() {
    let election = Election::from_reader(small_election_csv().as_bytes(), 2).unwrap();
    let mut rng = StdRng::seed_from_u64(1);
    let results = election.results_with(&mut rng).unwrap();
    assert_eq!(
        *results.elected(),
        vec![("c".to_string(), 4), ("a".to_string(), 4)]
    );
    assert_eq!(
        *results.eliminated(),
        vec![("d".to_string(), 1), ("b".to_string(), 2)]
    );
}

#[test]
fn quota_for_one_seat_is_a_majority() {
    let election = Election::new(names(&["a"]), vec![names(&["a"]); 7], 1).unwrap();
    assert_eq!(election.total_votes(), 7);
    assert_eq!(election.quota(), 4);
}

#[test]
fn quota_with_no_ballots_is_one() {
    let election = Election::new(names(&["a", "b"]), Vec::new(), 3).unwrap();
    assert_eq!(election.quota(), 1);
}

#[test]
fn quota_with_the_largest_seat_count_is_one() {
    let election = Election::new(names(&["a"]), vec![names(&["a"]); 5], u64::MAX).unwrap();
    assert_eq!(election.quota(), 1);
}

#[test]
fn spoiled_ballot_is_dropped_whole() {
    let votes = vec![names(&["a", "z", "b"]), names(&["b", "a"]), names(&["q"])];
    let election = Election::new(names(&["a", "b"]), votes, 1).unwrap();
    assert_eq!(election.num_spoiled_votes(), 2);
    assert_eq!(*election.votes(), vec![names(&["b", "a"])]);
    assert_eq!(election.seats(), 1);
}

#[test]
fn empty_csv_has_no_candidates_and_no_ballots() {
    let election = Election::from_reader("".as_bytes(), 1).unwrap();
    assert!(election.candidates().is_empty());
    assert!(election.votes().is_empty());
}

#[test]
fn unreadable_csv_is_an_error() {
    let bytes: &[u8] = b"a,b\n\xff\xfe,a\n";
    let r = Election::from_reader(bytes, 1);
    assert!(matches!(r, Err(ElectionError::CsvError(_))));
}

#[test]
fn more_seats_than_candidates_is_not_enough_votes() {
    let votes = vec![names(&["a", "b"]), names(&["b"]), names(&["a"])];
    let election = Election::new(names(&["a", "b"]), votes, 3).unwrap();
    let r = election.results();
    assert!(matches!(r, Err(ElectionError::NotEnoughVotesError)));
}

#[test]
fn exhausted_ballots_can_leave_a_seat_empty() {
    let election = Election::new(names(&["a", "b"]), vec![names(&["a"])], 2).unwrap();
    let mut rng = StdRng::seed_from_u64(3);
    let r = election.results_with(&mut rng);
    assert!(matches!(r, Err(ElectionError::NotEnoughVotesError)));
}

#[test]
fn surplus_is_handed_on_to_next_preference() {
    let mut votes = vec![names(&["a", "b"]); 5];
    votes.push(names(&["c"]));
    votes.push(names(&["b"]));
    let election = Election::new(names(&["a", "b", "c"]), votes, 2).unwrap();
    assert_eq!(election.quota(), 3);
    for seed in 0..8 {
        let election = Election::new(
            names(&["a", "b", "c"]),
            election.votes().clone(),
            2,
        )
        .unwrap();
        let mut rng = StdRng::seed_from_u64(seed);
        let results = election.results_with(&mut rng).unwrap();
        assert_eq!(
            *results.elected(),
            vec![("a".to_string(), 5), ("b".to_string(), 3)]
        );
        assert!(results.eliminated().is_empty());
    }
}

#[test]
fn loser_tie_goes_to_the_first_in_the_list() {
    let votes = vec![names(&["a", "c"]), names(&["b", "c"]), names(&["c"]), names(&["c"])];
    let election = Election::new(names(&["b", "a", "c"]), votes, 1).unwrap();
    let results = election.results().unwrap();
    assert_eq!(*results.eliminated(), vec![("b".to_string(), 1)]);
    assert_eq!(*results.elected(), vec![("c".to_string(), 3)]);
}

#[test]
fn decided_candidates_are_disjoint_and_within_the_list() {
    for seed in 0..4 {
        let election = Election::from_reader(small_election_csv().as_bytes(), 2).unwrap();
        let candidates = election.candidates().clone();
        let mut rng = StdRng::seed_from_u64(seed);
        let results = election.results_with(&mut rng).unwrap();
        let elected: Vec<&String> = results.elected().iter().map(|r| &r.0).collect();
        let eliminated: Vec<&String> = results.eliminated().iter().map(|r| &r.0).collect();
        assert_eq!(elected.len(), 2);
        for e in &elected {
            assert!(candidates.contains(e));
            assert!(!eliminated.contains(e));
        }
        for e in &eliminated {
            assert!(candidates.contains(e));
        }
        assert!(elected.len() + eliminated.len() <= candidates.len());
    }
}

#[test]
fn every_round_decides_someone() {
    let candidates = names(&["a", "b", "c", "d"]);
    let votes = vec![
        names(&["a"]),
        names(&["a"]),
        names(&["b"]),
        names(&["b"]),
        names(&["c", "a"]),
        names(&["d", "b"]),
    ];
    let election = Election::new(candidates, votes, 2).unwrap();
    assert_eq!(election.quota(), 3);
    let results = election.results().unwrap();
    assert_eq!(
        *results.elected(),
        vec![("a".to_string(), 3), ("b".to_string(), 3)]
    );
    assert_eq!(
        *results.eliminated(),
        vec![("c".to_string(), 1), ("d".to_string(), 1)]
    );
}
