use good_stv::poll::{Candidate, Poll, PollDb, ID_LENGTH};
use rand::rngs::StdRng;
use rand::SeedableRng;

#[test]
fn poll_create_poll() {
    let expected_candidates = vec![
        Candidate {
            id: "alice".to_string(),
            name: "Alice".to_string(),
        },
        Candidate {
            id: "bob_smith".to_string(),
            name: "Bob Smith".to_string(),
        },
        Candidate {
            id: "charlie".to_string(),
            name: "Charlie".to_string(),
        },
    ];
    let mut rng = StdRng::seed_from_u64(11);
    let poll = Poll::new(
        "test".to_string(),
        vec![
            "Alice".to_string(),
            "Bob Smith".to_string(),
            "Charlie".to_string(),
        ],
        Poll::generate_id(&mut rng),
        0,
    );
    assert_eq!("test", poll.name);
    assert_eq!(true, poll.in_progress);
    assert_eq!(expected_candidates, poll.candidates);
}

#[test]
fn candidate_id_lowercases_and_joins_words() {
    let c = Candidate::new("Mary Ann  O'Neil".to_string());
    assert_eq!(c.id, "mary_ann__o'neil");
    assert_eq!(c.name, "Mary Ann  O'Neil");
}

#[test]
fn generated_ids_are_six_letters_or_digits() {
    let mut rng = StdRng::seed_from_u64(5);
    for _ in 0..20 {
        let id = Poll::generate_id(&mut rng);
        assert_eq!(id.chars().count(), ID_LENGTH);
        assert!(id.chars().all(|c| c.is_ascii_alphanumeric()));
    }
}

#[test]
fn poll_store_finds_and_replaces_by_id() {
    let mut db = PollDb::new();
    assert!(db.get(&"abc123".to_string()).is_none());
    db.insert(Poll::new("first".to_string(), vec!["A".to_string()], "abc123".to_string(), 1));
    db.insert(Poll::new("other".to_string(), Vec::new(), "zzz999".to_string(), 2));
    assert_eq!(db.get(&"abc123".to_string()).unwrap().name, "first");
    db.insert(Poll::new("second".to_string(), Vec::new(), "abc123".to_string(), 3));
    assert_eq!(db.get(&"abc123".to_string()).unwrap().name, "second");
    assert_eq!(db.get(&"zzz999".to_string()).unwrap().created_at, 2);
    assert_eq!(db.polls.len(), 2);
}
