//! Polls that the web front end runs: their candidates, and the store that
//! holds them by id.
use vstd::prelude::*;

use rand::rngs::StdRng;

use vstd::string::{StrSliceExecFns, StringExecFns};

use crate::outside::{alphanumeric, is_alphanumeric, lowercase_of, push_char, to_lowercase};

verus! {

/// The number of characters in a poll's id.
pub const ID_LENGTH: usize = 6;

/// Whether `s` is `len` letters and digits.
pub open spec fn is_key(s: Seq<char>, len: nat) -> bool {
    s.len() == len && forall|i: int| 0 <= i < s.len() ==> is_alphanumeric(#[trigger] s[i])
}

/// `len` random letters and digits.
pub fn random_key(rng: &mut StdRng, len: usize) -> (key: String)
    ensures
        is_key(key@, len as nat),
{
    let mut key = String::new();
    let mut i: usize = 0;
    while i < len
        invariant
            i <= len,
            key@.len() == i,
            forall|j: int| 0 <= j < key@.len() ==> is_alphanumeric(#[trigger] key@[j]),
        decreases len - i,
    {
        let c = alphanumeric(rng);
        push_char(&mut key, c);
        i = i + 1;
    }
    key
}

/// `s` with every space turned into an underscore.
pub open spec fn underscored(s: Seq<char>) -> Seq<char> {
    s.map_values(|c: char| if c == ' ' { '_' } else { c })
}

/// The id of a candidate named `name`: the name in lower case, with
/// underscores for spaces.
pub open spec fn candidate_id(name: Seq<char>) -> Seq<char> {
    underscored(lowercase_of(name))
}

/// A candidate of a poll.
#[derive(Debug, PartialEq, Eq)]
pub struct Candidate {
    pub id: String,
    pub name: String,
}

impl Candidate {
    /// The candidate named `name`, with the id derived from it.
    pub fn new(name: String) -> (c: Candidate)
        ensures
            c.name@ == name@,
            c.id@ == candidate_id(name@),
    {
        let lower = to_lowercase(name.as_str());
        let ghost l = lower@;
        let s = lower.as_str();
        let len = s.unicode_len();
        let mut id = String::new();
        let mut i: usize = 0;
        while i < len
            invariant
                s@ == l,
                len == l.len(),
                i <= len,
                id@ == underscored(l.take(i as int)),
            decreases len - i,
        {
            let c = s.get_char(i);
            if c == ' ' {
                push_char(&mut id, '_');
            } else {
                push_char(&mut id, c);
            }
            assert(id@ =~= underscored(l.take(i + 1)));
            i = i + 1;
        }
        assert(l.take(i as int) == l);
        Candidate { id, name }
    }
}

/// Whether `p` is the open poll with id `id` and name `name`, created at
/// `created_at`, whose candidates are those named by `candidates`, in order.
pub open spec fn is_opened(p: Poll, id: Seq<char>, name: Seq<char>, candidates: Seq<String>, created_at: i64) -> bool {
    &&& p.id@ == id
    &&& p.name@ == name
    &&& p.created_at == created_at
    &&& p.in_progress
    &&& p.candidates@.len() == candidates.len()
    &&& forall|i: int|
        0 <= i < candidates.len() ==> (#[trigger] p.candidates@[i]).name@ == candidates[i]@
            && p.candidates@[i].id@ == candidate_id(candidates[i]@)
}

/// A poll: its id, its name, when it was created (seconds since the Unix
/// epoch), whether it still takes votes, and its candidates.
#[derive(Debug)]
pub struct Poll {
    pub id: String,
    pub name: String,
    pub created_at: i64,
    pub in_progress: bool,
    pub candidates: Vec<Candidate>,
}

impl Poll {
    /// An open poll named `name`, with id `id`, created at `created_at`,
    /// whose candidates are named by `candidates`.
    pub fn new(name: String, candidates: Vec<String>, id: String, created_at: i64) -> (p: Poll)
        ensures
            is_opened(p, id@, name@, candidates@, created_at),
    {
        let mut cs: Vec<Candidate> = Vec::new();
        let mut i: usize = 0;
        while i < candidates.len()
            invariant
                i <= candidates@.len(),
                cs@.len() == i,
                forall|j: int|
                    0 <= j < i ==> (#[trigger] cs@[j]).name@ == candidates@[j]@ && cs@[j].id@ == candidate_id(
                        candidates@[j]@,
                    ),
            decreases candidates@.len() - i,
        {
            let name = candidates[i].clone();
            cs.push(Candidate::new(name));
            i = i + 1;
        }
        Poll { id, name, created_at, in_progress: true, candidates: cs }
    }

    /// A fresh poll id: `ID_LENGTH` random letters and digits.
    pub fn generate_id(rng: &mut StdRng) -> (id: String)
        ensures
            is_key(id@, ID_LENGTH as nat),
    {
        random_key(rng, ID_LENGTH)
    }
}

/// Whether some poll of `polls` has the id `id`.
pub open spec fn has_id(polls: Seq<Poll>, id: Seq<char>) -> bool {
    exists|i: int| 0 <= i < polls.len() && (#[trigger] polls[i]).id@ == id
}

/// The polls of the web front end, each under its own id.
#[derive(Debug)]
pub struct PollDb {
    pub polls: Vec<Poll>,
}

impl PollDb {
    /// No two polls share an id.
    pub open spec fn wf(&self) -> bool {
        forall|i: int, j: int|
            0 <= i < j < self.polls@.len() ==> (#[trigger] self.polls@[i]).id@ != (#[trigger] self.polls@[j]).id@
    }

    /// A store with no polls.
    pub fn new() -> (db: PollDb)
        ensures
            db.wf(),
            db.polls@.len() == 0,
    {
        PollDb { polls: Vec::new() }
    }

    /// Position of the poll with id `id`, if there is one.
    fn position(&self, id: &String) -> (r: Option<usize>)
        requires
            self.wf(),
        ensures
            r is None <==> !has_id(self.polls@, id@),
            r matches Some(i) ==> i < self.polls@.len() && self.polls@[i as int].id@ == id@,
    {
        let mut i: usize = 0;
        while i < self.polls.len()
            invariant
                i <= self.polls@.len(),
                forall|j: int| 0 <= j < i ==> (#[trigger] self.polls@[j]).id@ != id@,
            decreases self.polls@.len() - i,
        {
            if self.polls[i].id == *id {
                return Some(i);
            }
            i = i + 1;
        }
        None
    }

    /// The poll with id `id`, if there is one.
    pub fn get(&self, id: &String) -> (r: Option<&Poll>)
        requires
            self.wf(),
        ensures
            r is None <==> !has_id(self.polls@, id@),
            r matches Some(p) ==> p.id@ == id@ && self.polls@.contains(*p),
    {
        match self.position(id) {
            Some(i) => Some(&self.polls[i]),
            None => None,
        }
    }

    /// Stores `poll` under its id, replacing any poll that had that id.
    pub fn insert(&mut self, poll: Poll)
        requires
            old(self).wf(),
        ensures
            final(self).wf(),
            final(self).polls@.contains(poll),
            forall|p: Poll| #[trigger] final(self).polls@.contains(p) ==> p == poll || (old(self).polls@.contains(p)
                && p.id@ != poll.id@),
            forall|p: Poll| #[trigger] old(self).polls@.contains(p) && p.id@ != poll.id@ ==> final(self).polls@.contains(p),
    {
        let ghost old_polls = self.polls@;
        let ghost pid = poll.id@;
        match self.position(&poll.id) {
            Some(i) => {
                self.polls.set(i, poll);
                assert(self.polls@[i as int] == poll);
                assert forall|p: Poll| #[trigger] self.polls@.contains(p) implies p == poll || (old_polls.contains(p)
                    && p.id@ != pid) by {
                    let j = choose|j: int| 0 <= j < self.polls@.len() && self.polls@[j] == p;
                    if j != i {
                        assert(old_polls[j] == p);
                    }
                }
                assert forall|p: Poll| #[trigger] old_polls.contains(p) && p.id@ != pid implies self.polls@.contains(
                    p,
                ) by {
                    let j = choose|j: int| 0 <= j < old_polls.len() && old_polls[j] == p;
                    assert(self.polls@[j] == p);
                }
            },
            None => {
                self.polls.push(poll);
                assert(self.polls@[old_polls.len() as int] == poll);
                assert forall|p: Poll| #[trigger] self.polls@.contains(p) implies p == poll || (old_polls.contains(p)
                    && p.id@ != pid) by {
                    let j = choose|j: int| 0 <= j < self.polls@.len() && self.polls@[j] == p;
                    if j < old_polls.len() {
                        assert(old_polls[j] == p);
                    }
                }
                assert forall|p: Poll| #[trigger] old_polls.contains(p) && p.id@ != pid implies self.polls@.contains(
                    p,
                ) by {
                    let j = choose|j: int| 0 <= j < old_polls.len() && old_polls[j] == p;
                    assert(self.polls@[j] == p);
                }
            },
        }
    }
}

} // verus!
