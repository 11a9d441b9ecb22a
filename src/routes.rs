//! What the web front end answers, apart from its transport: the messages of
//! its error pages and where a request for a static file is served from.
use vstd::prelude::*;

use rand::rngs::StdRng;

use vstd::string::StringExecFns;

use crate::poll::{is_key, is_opened, random_key, Poll, PollDb, ID_LENGTH};

verus! {

/// The body of the page for an internal server error.
pub fn internal_error() -> (r: &'static str)
    ensures
        r@ == "Whoops! Looks like we messed up."@,
{
    "Whoops! Looks like we messed up."
}

/// The body of the page for a request to `path`, which names nothing.
pub fn not_found(path: &str) -> (r: String)
    ensures
        r@ == "Sorry, '"@ + path@ + "' is not a valid path."@,
{
    let mut r = String::from_str("Sorry, '");
    r.append(path);
    r.append("' is not a valid path.");
    r
}

/// The file that a request for `file`, a path relative to the `public`
/// directory, is served from.
pub fn files(file: &str) -> (r: String)
    ensures
        r@ == "public/"@ + file@,
{
    let mut r = String::from_str("public/");
    r.append(file);
    r
}

/// The number of characters in a poll's admin key.
pub const ADMIN_KEY_LENGTH: usize = 8;

/// Opens a poll named `name` for the candidates named `candidates`, created
/// at `created_at`, stores it in `db` under a fresh random id, and returns
/// that id with a random admin key for the poll.
pub fn create_poll(
    db: &mut PollDb,
    name: String,
    candidates: Vec<String>,
    created_at: i64,
    rng: &mut StdRng,
) -> (r: (String, String))
    requires
        old(db).wf(),
    ensures
        final(db).wf(),
        is_key(r.0@, ID_LENGTH as nat),
        is_key(r.1@, ADMIN_KEY_LENGTH as nat),
        exists|p: Poll| #[trigger] final(db).polls@.contains(p) && is_opened(p, r.0@, name@, candidates@, created_at),
        forall|p: Poll| #[trigger] final(db).polls@.contains(p) ==> is_opened(p, r.0@, name@, candidates@, created_at)
            || (old(db).polls@.contains(p) && p.id@ != r.0@),
        forall|p: Poll| #[trigger] old(db).polls@.contains(p) && p.id@ != r.0@ ==> final(db).polls@.contains(p),
{
    let ghost cs = candidates@;
    let ghost nm = name@;
    let poll = Poll::new(name, candidates, Poll::generate_id(rng), created_at);
    let poll_id = poll.id.clone();
    let ghost p = poll;
    db.insert(poll);
    let admin_key = random_key(rng, ADMIN_KEY_LENGTH);
    assert(is_opened(p, poll_id@, nm, cs, created_at));
    (poll_id, admin_key)
}

} // verus!
