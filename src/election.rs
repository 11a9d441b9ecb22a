//! An election: candidates, the ballots cast for them, and the seats to fill.
use vstd::prelude::*;

use rand::rngs::StdRng;

use crate::count::{seqs_of, Count};
use crate::laws::{lemma_complete_fills_seats, lemma_more_seats_than_candidates};
use crate::outside::{csv_records, os_seeded_rng, read_records, sample_positions};
use crate::tally::{
    contesting, count_active, distribute_surpluses, elect_all, extends, lemma_count_active_bound,
    lemma_count_active_drops, lemma_distribute_frame, lemma_elect_all, lemma_loser, lemma_run_step,
    lemma_winners, opening, round, run, winners, Outcome,
};

verus! {

/// What can stop an election from producing results.
#[derive(Debug)]
pub enum ElectionError {
    /// There were not enough votes to fill every seat.
    NotEnoughVotesError,
    /// The ballot data could not be read as CSV.
    CsvError(csv::Error),
    /// No entropy was available to seed the draw of surplus ballots.
    EntropyError,
}

/// The names in a list of strings.
pub open spec fn names_of(v: Seq<String>) -> Seq<Seq<char>> {
    v.map_values(|s: String| s@)
}

/// The ballots in a list of ballots, each as its names.
pub open spec fn ballots_of(v: Seq<Vec<String>>) -> Seq<Seq<Seq<char>>> {
    v.map_values(|b: Vec<String>| names_of(b@))
}

/// A ballot is spoiled when it names someone who is not a candidate.
pub open spec fn is_spoiled(candidates: Seq<Seq<char>>, ballot: Seq<Seq<char>>) -> bool {
    exists|j: int| 0 <= j < ballot.len() && !candidates.contains(#[trigger] ballot[j])
}

/// The ballots that are not spoiled, in their order.
pub open spec fn unspoiled(candidates: Seq<Seq<char>>, ballots: Seq<Seq<Seq<char>>>) -> Seq<Seq<Seq<char>>> {
    ballots.filter(|b: Seq<Seq<char>>| !is_spoiled(candidates, b))
}

/// Position of the first candidate named `s`, or the number of candidates
/// when nobody is.
pub open spec fn position_in(candidates: Seq<Seq<char>>, s: Seq<char>) -> nat
    decreases candidates.len(),
{
    if candidates.len() == 0 {
        0
    } else if candidates[0] == s {
        0
    } else {
        1 + position_in(candidates.drop_first(), s)
    }
}

/// The first position holding `s` is `i` when `i` holds it and none before does.
pub proof fn lemma_position_in(candidates: Seq<Seq<char>>, s: Seq<char>, i: int)
    requires
        0 <= i <= candidates.len(),
        i < candidates.len() ==> candidates[i] == s,
        forall|j: int| 0 <= j < i ==> candidates[j] != s,
    ensures
        position_in(candidates, s) == i,
    decreases candidates.len(),
{
    if candidates.len() > 0 && i > 0 {
        assert(candidates[0] != s);
        lemma_position_in(candidates.drop_first(), s, i - 1);
    }
}

/// The election as values: the candidates' names, the ballots left after
/// purging the spoiled ones, the seats, and how many ballots were purged.
pub ghost struct ElectionView {
    pub candidates: Seq<Seq<char>>,
    pub ballots: Seq<Seq<Seq<char>>>,
    pub seats: nat,
    pub num_spoiled: nat,
}

/// The election that `candidates`, the ballots cast `votes` and `seats` make.
pub open spec fn election_of(candidates: Seq<Seq<char>>, votes: Seq<Seq<Seq<char>>>, seats: nat) -> ElectionView {
    ElectionView {
        candidates,
        ballots: unspoiled(candidates, votes),
        seats,
        num_spoiled: (votes.len() - unspoiled(candidates, votes).len()) as nat,
    }
}

/// The Droop quota: the ballots a candidate needs to be elected.
pub open spec fn droop_quota(total: nat, seats: nat) -> nat {
    total / (seats + 1) + 1
}

/// The ballots as candidate positions: each name becomes the position of
/// the first candidate so named.
pub open spec fn positions_of(candidates: Seq<Seq<char>>, ballots: Seq<Seq<Seq<char>>>) -> Seq<Seq<usize>> {
    ballots.map_values(|b: Seq<Seq<char>>| b.map_values(|s: Seq<char>| position_in(candidates, s) as usize))
}

/// Records of the count, with each candidate's position replaced by their name.
pub open spec fn named(records: Seq<(usize, usize)>, candidates: Seq<Seq<char>>) -> Seq<(Seq<char>, nat)> {
    records.map_values(|r: (usize, usize)| (candidates[r.0 as int], r.1 as nat))
}

/// A list of name and ballot count pairs, as values.
pub open spec fn records_view(v: Seq<(String, u64)>) -> Seq<(Seq<char>, nat)> {
    v.map_values(|r: (String, u64)| (r.0@, r.1 as nat))
}

/// Results of the election: everyone elected and everyone eliminated, in the
/// order it happened, each with the ballots they held at that moment.
#[derive(Debug, PartialEq, Eq)]
pub struct ElectionResults {
    pub elected: Vec<(String, u64)>,
    pub eliminated: Vec<(String, u64)>,
}

impl ElectionResults {
    /// Those elected, as names and ballot counts.
    pub open spec fn elected_view(&self) -> Seq<(Seq<char>, nat)> {
        records_view(self.elected@)
    }

    /// Those eliminated, as names and ballot counts.
    pub open spec fn eliminated_view(&self) -> Seq<(Seq<char>, nat)> {
        records_view(self.eliminated@)
    }

    /// Those elected, each with the number of votes held at the time of their win.
    pub fn elected(&self) -> (r: &Vec<(String, u64)>)
        ensures
            r@ == self.elected@,
    {
        &self.elected
    }

    /// Those eliminated, each with the number of votes held at the time of their loss.
    pub fn eliminated(&self) -> (r: &Vec<(String, u64)>)
        ensures
            r@ == self.eliminated@,
    {
        &self.eliminated
    }
}

/// Whether `r` reports the end `o` of a count among `candidates`.
pub open spec fn reports(r: Result<ElectionResults, ElectionError>, o: Outcome, candidates: Seq<Seq<char>>) -> bool {
    match o {
        Outcome::Complete(t) => r is Ok && r->Ok_0.elected_view() == named(t.elected, candidates)
            && r->Ok_0.eliminated_view() == named(t.eliminated, candidates),
        Outcome::Short(_) => r is Err && r->Err_0 is NotEnoughVotesError,
        Outcome::Unfinished => false,
    }
}

/// Names each record of a count.
fn name_records(records: &Vec<(usize, usize)>, candidates: &Vec<String>) -> (r: Vec<(String, u64)>)
    requires
        forall|i: int| 0 <= i < records@.len() ==> (#[trigger] records@[i]).0 < candidates@.len(),
    ensures
        records_view(r@) == named(records@, names_of(candidates@)),
{
    let mut r: Vec<(String, u64)> = Vec::new();
    let mut i: usize = 0;
    while i < records.len()
        invariant
            i <= records@.len(),
            forall|i: int| 0 <= i < records@.len() ==> (#[trigger] records@[i]).0 < candidates@.len(),
            records_view(r@) == named(records@.take(i as int), names_of(candidates@)),
        decreases records@.len() - i,
    {
        let (c, held) = records[i];
        assert(held as u64 as nat == held as nat);
        let name = candidates[c].clone();
        assert(name@ == names_of(candidates@)[c as int]);
        let ghost before = r@;
        r.push((name, held as u64));
        assert(records_view(r@) =~= records_view(before).push((name@, held as nat)));
        assert(records@.take(i + 1) =~= records@.take(i as int).push(records@[i as int]));
        assert(records_view(r@) =~= named(records@.take(i + 1), names_of(candidates@)));
        i = i + 1;
    }
    assert(records@.take(i as int) == records@);
    r
}

/// The candidates of a table of records: its first record.
pub open spec fn header_of(rows: Seq<Seq<Seq<char>>>) -> Seq<Seq<char>> {
    if rows.len() == 0 {
        seq![]
    } else {
        rows[0]
    }
}

/// The ballots of a table of records: every record after the first.
pub open spec fn body_of(rows: Seq<Seq<Seq<char>>>) -> Seq<Seq<Seq<char>>> {
    if rows.len() == 0 {
        seq![]
    } else {
        rows.drop_first()
    }
}

/// Represents the process of an election.
///
/// An `Election` is built from candidates and ballots, and is consumed when
/// it returns the results of the election.
#[derive(Debug)]
pub struct Election {
    candidates: Vec<String>,
    votes: Vec<Vec<String>>,
    seats: u64,
    num_spoiled_votes: u64,
}

impl View for Election {
    type V = ElectionView;

    closed spec fn view(&self) -> ElectionView {
        ElectionView {
            candidates: names_of(self.candidates@),
            ballots: ballots_of(self.votes@),
            seats: self.seats as nat,
            num_spoiled: self.num_spoiled_votes as nat,
        }
    }
}

/// Position of the first candidate named `name`, if anyone is.
fn find_candidate(candidates: &Vec<String>, name: &String) -> (p: Option<usize>)
    ensures
        p is None <==> !names_of(candidates@).contains(name@),
        p matches Some(i) ==> i < candidates@.len() && i as nat == position_in(names_of(candidates@), name@),
{
    let ghost cands = names_of(candidates@);
    let mut i: usize = 0;
    while i < candidates.len()
        invariant
            i <= candidates@.len(),
            cands == names_of(candidates@),
            forall|j: int| 0 <= j < i ==> cands[j] != name@,
        decreases candidates@.len() - i,
    {
        if candidates[i] == *name {
            proof {
                assert(cands[i as int] == name@);
                lemma_position_in(cands, name@, i as int);
            }
            return Some(i);
        }
        i = i + 1;
    }
    proof {
        if cands.contains(name@) {
            let j = choose|j: int| 0 <= j < cands.len() && cands[j] == name@;
            assert(cands[j] == name@);
        }
    }
    None
}

/// Whether `ballot` names someone who is not a candidate.
fn names_unknown(candidates: &Vec<String>, ballot: &Vec<String>) -> (r: bool)
    ensures
        r == is_spoiled(names_of(candidates@), names_of(ballot@)),
{
    let ghost cands = names_of(candidates@);
    let ghost b = names_of(ballot@);
    let mut j: usize = 0;
    while j < ballot.len()
        invariant
            j <= ballot@.len(),
            cands == names_of(candidates@),
            b == names_of(ballot@),
            forall|k: int| 0 <= k < j ==> cands.contains(#[trigger] b[k]),
        decreases ballot@.len() - j,
    {
        if find_candidate(candidates, &ballot[j]).is_none() {
            assert(!cands.contains(b[j as int]));
            return true;
        }
        j = j + 1;
    }
    false
}

/// Drops every spoiled ballot, keeping the others in their order.
fn purge_spoiled_votes(candidates: &Vec<String>, votes: Vec<Vec<String>>) -> (kept: Vec<Vec<String>>)
    ensures
        ballots_of(kept@) == unspoiled(names_of(candidates@), ballots_of(votes@)),
{
    let ghost cands = names_of(candidates@);
    let ghost all = ballots_of(votes@);
    let mut votes = votes;
    let mut kept: Vec<Vec<String>> = Vec::new();
    let mut i: usize = 0;
    while i < votes.len()
        invariant
            i <= votes@.len(),
            votes@.len() == all.len(),
            cands == names_of(candidates@),
            forall|k: int| i <= k < votes@.len() ==> names_of(#[trigger] votes@[k]@) == all[k],
            ballots_of(kept@) == unspoiled(cands, all.take(i as int)),
        decreases votes@.len() - i,
    {
        let mut b: Vec<String> = Vec::new();
        std::mem::swap(&mut b, &mut votes[i]);
        assert(names_of(b@) == all[i as int]);
        assert(all.take(i + 1).drop_last() == all.take(i as int));
        assert(all.take(i + 1).last() == all[i as int]);
        let spoiled = names_unknown(candidates, &b);
        proof {
            reveal(Seq::filter);
        }
        if !spoiled {
            kept.push(b);
            assert(ballots_of(kept@) =~= unspoiled(cands, all.take(i as int)).push(all[i as int]));
        } else {
            assert(is_spoiled(cands, all.take(i + 1).last()));
            assert(unspoiled(cands, all.take(i + 1)) == unspoiled(cands, all.take(i as int)));
        }
        i = i + 1;
    }
    assert(all.take(i as int) == all);
    kept
}

impl Election {
    /// Every purged ballot names only candidates, at least one seat is to be
    /// filled, and the counts fit their types.
    #[verifier::type_invariant]
    spec fn inv(self) -> bool {
        &&& self.seats >= 1
        &&& forall|k: int, j: int|
            0 <= k < self@.ballots.len() && 0 <= j < self@.ballots[k].len()
                ==> self@.candidates.contains(#[trigger] self@.ballots[k][j])
    }

    /// Builds an election from ballots already in memory; spoiled ballots are
    /// purged and their number kept.
    pub fn new(candidates: Vec<String>, votes: Vec<Vec<String>>, seats: u64) -> (r: Result<Election, ElectionError>)
        requires
            seats >= 1,
        ensures
            r is Ok,
            r matches Ok(e) ==> e@ == election_of(names_of(candidates@), ballots_of(votes@), seats as nat),
    {
        let ghost cands = names_of(candidates@);
        let ghost all = ballots_of(votes@);
        let before = votes.len();
        let kept = purge_spoiled_votes(&candidates, votes);
        proof {
            all.lemma_filter_len(|b: Seq<Seq<char>>| !is_spoiled(cands, b));
            assert forall|k: int, j: int|
                0 <= k < ballots_of(kept@).len() && 0 <= j < ballots_of(kept@)[k].len()
                    implies cands.contains(#[trigger] ballots_of(kept@)[k][j]) by {
                all.lemma_filter_pred(|b: Seq<Seq<char>>| !is_spoiled(cands, b), k);
            }
        }
        let num_spoiled_votes = (before - kept.len()) as u64;
        Ok(Election { candidates, votes: kept, seats, num_spoiled_votes })
    }

    /// Builds an election from CSV data: the first record names the
    /// candidates, and each later record is a ballot, most preferred first.
    pub fn from_reader(reader: &[u8], seats: u64) -> (r: Result<Election, ElectionError>)
        requires
            seats >= 1,
        ensures
            match csv_records(reader@) {
                Some(rows) => r is Ok && r->Ok_0@ == election_of(header_of(rows), body_of(rows), seats as nat),
                None => r is Err && r->Err_0 is CsvError,
            },
    {
        match read_records(reader) {
            Ok(rows) => {
                let mut rows = rows;
                if rows.len() == 0 {
                    let r = Election::new(Vec::new(), Vec::new(), seats);
                    assert(names_of(Seq::<String>::empty()) =~= seq![]);
                    assert(ballots_of(Seq::<Vec<String>>::empty()) =~= seq![]);
                    r
                } else {
                    let ghost all = ballots_of(rows@);
                    let candidates = rows.remove(0);
                    assert(ballots_of(rows@) =~= all.drop_first());
                    Election::new(candidates, rows, seats)
                }
            },
            Err(e) => Err(ElectionError::CsvError(e)),
        }
    }

    /// Counts the election, drawing surplus ballots with a generator that
    /// the operating system seeds, and returns its results; consumes the
    /// election.
    pub fn results(self) -> (r: Result<ElectionResults, ElectionError>)
        ensures
            (r is Err && r->Err_0 is EntropyError) || exists|draws: Seq<Seq<usize>>|
                reports(r, #[trigger] self.outcome(draws), self@.candidates),
            self@.seats > self@.candidates.len() ==> r is Err && (r->Err_0 is NotEnoughVotesError
                || r->Err_0 is EntropyError),
            r is Ok ==> r->Ok_0.elected@.len() == self@.seats,
    {
        match os_seeded_rng() {
            Some(rng) => {
                let mut rng = rng;
                self.results_with(&mut rng)
            },
            None => Err(ElectionError::EntropyError),
        }
    }

    /// The number of ballots counted: those cast, less the spoiled ones.
    pub fn total_votes(&self) -> (n: u64)
        ensures
            n as nat == self@.ballots.len(),
    {
        self.votes.len() as u64
    }

    /// The number of ballots a candidate must reach to take a seat.
    pub fn quota(&self) -> (q: u64)
        ensures
            q as nat == droop_quota(self@.ballots.len(), self@.seats),
    {
        proof {
            use_type_invariant(self);
        }
        let total = self.total_votes();
        let seats = self.seats;
        if seats == u64::MAX {
            assert(total as int / (seats as int + 1) == 0) by (nonlinear_arith)
                requires
                    seats == u64::MAX,
                    0 <= total <= u64::MAX,
            ;
            1
        } else {
            assert(total as int / (seats as int + 1) < u64::MAX) by (nonlinear_arith)
                requires
                    1 <= seats,
                    0 <= total <= u64::MAX,
            ;
            total / (seats + 1) + 1
        }
    }

    /// How the count of this election ends when the `k`-th candidate elected
    /// hands on the surplus ballots at positions `draws[k]` of their pile.
    pub open spec fn outcome(&self, draws: Seq<Seq<usize>>) -> Outcome {
        let v = self@;
        let bs = positions_of(v.candidates, v.ballots);
        run(
            opening(v.candidates.len(), bs),
            bs,
            droop_quota(v.ballots.len(), v.seats),
            v.seats,
            draws,
            v.candidates.len(),
        )
    }

    /// The ballots as candidate positions.
    fn ballot_positions(&self) -> (bs: Vec<Vec<usize>>)
        ensures
            seqs_of(bs@) == positions_of(self@.candidates, self@.ballots),
            forall|k: int, j: int|
                0 <= k < bs@.len() && 0 <= j < bs@[k]@.len() ==> (#[trigger] bs@[k]@[j] as int) < self@.candidates.len(),
    {
        proof {
            use_type_invariant(self);
        }
        let ghost cands = self@.candidates;
        let ghost all = self@.ballots;
        let mut bs: Vec<Vec<usize>> = Vec::new();
        let mut k: usize = 0;
        while k < self.votes.len()
            invariant
                k <= self.votes@.len(),
                cands == self@.candidates,
                all == self@.ballots,
                all.len() == self.votes@.len(),
                forall|k: int, j: int|
                    0 <= k < all.len() && 0 <= j < all[k].len() ==> cands.contains(#[trigger] all[k][j]),
                seqs_of(bs@) == positions_of(cands, all.take(k as int)),
                forall|k: int, j: int|
                    0 <= k < bs@.len() && 0 <= j < bs@[k]@.len() ==> (#[trigger] bs@[k]@[j] as int) < cands.len(),
            decreases self.votes@.len() - k,
        {
            let ballot = &self.votes[k];
            assert(names_of(ballot@) == all[k as int]);
            let mut b: Vec<usize> = Vec::new();
            let mut j: usize = 0;
            while j < ballot.len()
                invariant
                    j <= ballot@.len(),
                    k < all.len(),
                    seqs_of(bs@) == positions_of(cands, all.take(k as int)),
                    forall|k: int, j: int|
                        0 <= k < bs@.len() && 0 <= j < bs@[k]@.len() ==> (#[trigger] bs@[k]@[j] as int) < cands.len(),
                    names_of(ballot@) == all[k as int],
                    cands == names_of(self.candidates@),
                    forall|j: int| 0 <= j < all[k as int].len() ==> cands.contains(#[trigger] all[k as int][j]),
                    b@ == all[k as int].take(j as int).map_values(|s: Seq<char>| position_in(cands, s) as usize),
                    forall|i: int| 0 <= i < b@.len() ==> (#[trigger] b@[i] as int) < cands.len(),
                decreases ballot@.len() - j,
            {
                assert(cands.contains(all[k as int][j as int]));
                let p = find_candidate(&self.candidates, &ballot[j]).unwrap();
                b.push(p);
                assert(b@ =~= all[k as int].take(j + 1).map_values(|s: Seq<char>| position_in(cands, s) as usize));
                j = j + 1;
            }
            assert(all[k as int].take(j as int) == all[k as int]);
            let ghost before = bs@;
            bs.push(b);
            assert(seqs_of(bs@) =~= seqs_of(before).push(b@));
            assert(all.take(k + 1) =~= all.take(k as int).push(all[k as int]));
            assert(seqs_of(bs@) =~= positions_of(cands, all.take(k + 1)));
            k = k + 1;
        }
        assert(all.take(k as int) == all);
        bs
    }

    /// Counts the election, drawing surplus ballots with `rng`, and returns
    /// its results; consumes the election.
    ///
    /// Whatever `rng` draws, the results are those of the count in which the
    /// drawn ballots are the surplus handed on.
    pub fn results_with(self, rng: &mut StdRng) -> (r: Result<ElectionResults, ElectionError>)
        ensures
            exists|draws: Seq<Seq<usize>>| reports(r, #[trigger] self.outcome(draws), self@.candidates),
            self@.seats > self@.candidates.len() ==> r is Err && r->Err_0 is NotEnoughVotesError,
            r is Ok ==> r->Ok_0.elected@.len() == self@.seats,
    {
        proof {
            use_type_invariant(&self);
        }
        let ghost cands = self@.candidates;
        let n = self.candidates.len();
        let seats = self.seats;
        let ballots = self.ballot_positions();
        let quota = self.quota();
        let nb = self.votes.len();
        assert(nb as nat == self@.ballots.len());
        assert(nb as int / (seats as int + 1) <= nb as int / 2) by (nonlinear_arith)
            requires
                seats >= 1,
                nb >= 0,
        ;
        let q = quota as usize;
        let mut count = Count::open(n, ballots);
        let ghost bs = count.ballot_seqs();
        let ghost t0 = count@;
        let ghost qn = q as nat;
        let ghost sn = seats as nat;
        let ghost mut draws: Seq<Seq<usize>> = seq![];
        let ghost mut fuel: nat = n as nat;
        proof {
            lemma_count_active_bound(t0.active);
            assert(q as nat == droop_quota(self@.ballots.len(), self@.seats));
            assert(cands.len() == n);
            assert(bs == positions_of(cands, self@.ballots));
            assert(t0 == opening(cands.len(), bs));
        }
        assert forall|d: Seq<Seq<usize>>| #[trigger] extends(d, draws) implies run(t0, bs, qn, sn, d, n as nat)
            == run(count@, bs, qn, sn, d, fuel) by {}
        while (count.elected.len() as u64) < seats
            invariant
                count.wf(),
                count.ballot_seqs() == bs,
                count.active@.len() == n,
                q >= 1,
                qn == q as nat,
                sn == seats as nat,
                cands == self@.candidates,
                cands.len() == n,
                sn == self@.seats,
                qn == droop_quota(self@.ballots.len(), self@.seats),
                bs == positions_of(cands, self@.ballots),
                t0 == opening(cands.len(), bs),
                draws.len() == count@.elected.len(),
                fuel >= count_active(count@.active),
                forall|d: Seq<Seq<usize>>|
                    #[trigger] extends(d, draws) ==> run(t0, bs, qn, sn, d, n as nat) == run(
                        count@,
                        bs,
                        qn,
                        sn,
                        d,
                        fuel,
                    ),
            decreases count_active(count@.active),
        {
            let ghost cur = count@;
            let ghost draws0 = draws;
            let ws = count.winners(q);
            proof {
                lemma_winners(cur, qn, n as nat);
                lemma_loser(cur, n as nat);
            }
            if ws.len() > 0 {
                count.elect_all(&ws);
                let ghost mid = count@;
                proof {
                    lemma_elect_all(cur, ws@);
                }
                let ghost mut rd: Seq<Seq<usize>> = seq![];
                let mut j: usize = 0;
                while j < ws.len()
                    invariant
                        count.wf(),
                        count.ballot_seqs() == bs,
                        count.active@.len() == n,
                        q >= 1,
                        qn == q as nat,
                        j <= ws@.len(),
                        rd.len() == j,
                        forall|i: int|
                            0 <= i < ws@.len() ==> {
                                let w = #[trigger] ws@[i];
                                &&& (w as int) < n
                                &&& !mid.active[w as int]
                                &&& mid.piles[w as int].len() >= qn
                            },
                        forall|i: int, k: int| 0 <= i < k < ws@.len() ==> #[trigger] ws@[i] < #[trigger] ws@[k],
                        mid.piles.len() == mid.active.len(),
                        mid.active.len() == n,
                        count@ == distribute_surpluses(mid, bs, ws@.take(j as int), qn, rd),
                    decreases ws@.len() - j,
                {
                    let w = ws[j];
                    proof {
                        lemma_distribute_frame(mid, bs, ws@.take(j as int), qn, rd);
                        assert(!ws@.take(j as int).contains(w)) by {
                            if ws@.take(j as int).contains(w) {
                                let i = choose|i: int| 0 <= i < j && ws@.take(j as int)[i] == w;
                                assert(ws@[i] < ws@[j as int]);
                            }
                        }
                        assert(count@.piles[w as int] == mid.piles[w as int]);
                    }
                    let len = count.piles[w].len();
                    let picks = if len > q {
                        sample_positions(rng, len, len - q)
                    } else {
                        Vec::new()
                    };
                    count.distribute_surplus(w, q, &picks);
                    proof {
                        let rd0 = rd;
                        rd = rd.push(picks@);
                        assert(ws@.take(j + 1).drop_last() == ws@.take(j as int));
                        assert(rd.drop_last() == rd0);
                    }
                    j = j + 1;
                }
                proof {
                    assert(ws@.take(j as int) == ws@);
                    lemma_distribute_frame(mid, bs, ws@, qn, rd);
                    draws = draws0 + rd;
                    assert(draws.take(draws0.len() as int) =~= draws0);
                    let k = cur.elected.len() as int;
                    assert forall|d: Seq<Seq<usize>>| #[trigger] extends(d, draws) implies round(cur, bs, qn, d)
                        == count@ by {
                        assert(d.subrange(k, k + ws@.len()) =~= rd) by {
                            assert forall|i: int| 0 <= i < rd.len() implies d.subrange(k, k + ws@.len())[i]
                                == rd[i] by {
                                assert(d.take(draws.len() as int)[k + i] == draws[k + i]);
                            }
                        }
                    }
                    assert(contesting(cur.active, ws@[0] as int));
                    lemma_count_active_drops(cur.active, count@.active, ws@[0] as int);
                }
            } else {
                match count.loser() {
                    Some(l) => {
                        count.eliminate(l);
                        proof {
                            assert(draws.take(draws0.len() as int) =~= draws0);
                            lemma_count_active_drops(cur.active, count@.active, l as int);
                        }
                    },
                    None => {
                        proof {
                            assert(draws.take(draws.len() as int) =~= draws);
                            assert(extends(draws, draws));
                            assert(run(cur, bs, qn, sn, draws, fuel) == Outcome::Short(cur));
                            assert(self.outcome(draws) == run(t0, bs, qn, sn, draws, n as nat));
                        }
                        return Err(ElectionError::NotEnoughVotesError);
                    },
                }
            }
            proof {
                lemma_run_step(t0, bs, qn, sn, n as nat, cur, count@, draws0, draws, fuel);
                fuel = (fuel - 1) as nat;
            }
        }
        proof {
            assert(draws.take(draws.len() as int) =~= draws);
            assert(extends(draws, draws));
            assert(run(count@, bs, qn, sn, draws, fuel) == Outcome::Complete(count@));
            assert(self.outcome(draws) == run(t0, bs, qn, sn, draws, n as nat));
            assert forall|k: int, j: int| 0 <= k < bs.len() && 0 <= j < bs[k].len() implies (#[trigger] bs[k][j]
                as int) < n by {
                assert(bs[k][j] == count.ballots@[k]@[j]);
            }
            assert(bs.len() == self@.ballots.len());
            lemma_complete_fills_seats(n as nat, bs, sn, draws);
            if sn > n {
                assert forall|k: int, j: int| 0 <= k < bs.len() && 0 <= j < bs[k].len() implies (#[trigger] bs[k][j]
                    as int) < n by {
                    assert(bs[k][j] == count.ballots@[k]@[j]);
                }
                lemma_more_seats_than_candidates(n as nat, bs, qn, sn, draws);
            }
        }
        let elected = name_records(&count.elected, &self.candidates);
        let eliminated = name_records(&count.eliminated, &self.candidates);
        assert(records_view(elected@).len() == elected@.len());
        Ok(ElectionResults { elected, eliminated })
    }

    /// The candidates, in the order given.
    pub fn candidates(&self) -> (c: &Vec<String>)
        ensures
            names_of(c@) == self@.candidates,
    {
        &self.candidates
    }

    /// The ballots that will be counted, spoiled ones already purged.
    pub fn votes(&self) -> (v: &Vec<Vec<String>>)
        ensures
            ballots_of(v@) == self@.ballots,
    {
        &self.votes
    }

    /// How many spoiled ballots were purged.
    pub fn num_spoiled_votes(&self) -> (n: u64)
        ensures
            n as nat == self@.num_spoiled,
    {
        self.num_spoiled_votes
    }

    /// The number of seats to fill.
    pub fn seats(&self) -> (n: u64)
        ensures
            n as nat == self@.seats,
    {
        self.seats
    }
}

} // verus!
