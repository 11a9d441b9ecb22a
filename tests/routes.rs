use good_stv::poll::PollDb;
use good_stv::routes::{create_poll, files, internal_error, not_found, ADMIN_KEY_LENGTH};
use rand::rngs::StdRng;
use rand::SeedableRng;

#[test]
fn internal_error_page() {
    assert_eq!(internal_error(), "Whoops! Looks like we messed up.");
}

#[test]
fn not_found_page_names_the_path() {
    assert_eq!(not_found("/polls/foobar"), "Sorry, '/polls/foobar' is not a valid path.");
}

#[test]
fn static_files_are_served_from_public() {
    assert_eq!(files("css/site.css"), "public/css/site.css");
    assert_eq!(files(""), "public/");
}

#[test]
fn create_poll_stores_an_open_poll_and_hands_out_keys() {
    let mut db = PollDb::new();
    let mut rng = StdRng::seed_from_u64(9);
    let (id, admin_key) = create_poll(
        &mut db,
        "Test poll.".to_string(),
        vec!["a".to_string(), "b".to_string(), "c".to_string()],
        1_700_000_000,
        &mut rng,
    );
    assert_eq!(id.len(), 6);
    assert_eq!(admin_key.len(), ADMIN_KEY_LENGTH);
    assert!(admin_key.chars().all(|c| c.is_ascii_alphanumeric()));
    let poll = db.get(&id).unwrap();
    assert_eq!(poll.name, "Test poll.");
    assert!(poll.in_progress);
    assert_eq!(poll.created_at, 1_700_000_000);
    let ids: Vec<&str> = poll.candidates.iter().map(|c| c.id.as_str()).collect();
    assert_eq!(ids, vec!["a", "b", "c"]);
    assert_eq!(db.polls.len(), 1);
}
