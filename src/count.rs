//! The count as a running program, held to the model in `tally`.
use vstd::prelude::*;

use crate::tally::{
    distribute_surplus, elect_all, eliminate, fresh, hand_on, hand_on_all, is_draw,
    lemma_hand_on_all_frame, loser_below, next_pref, opening, winners_below, Tally,
};

verus! {

/// The working state of one count. Ballots are held once, in `ballots`,
/// and named by their position there; candidates are named by their
/// position in the candidate list.
pub struct Count {
    /// Each ballot as candidate positions, most preferred first.
    pub ballots: Vec<Vec<usize>>,
    /// For each candidate, the ballots credited to them.
    pub piles: Vec<Vec<usize>>,
    /// For each ballot, the position of the next preference still to be read.
    pub cursor: Vec<usize>,
    /// For each candidate, whether they are still contesting.
    pub active: Vec<bool>,
    /// Candidates elected so far, each with the ballots held when elected.
    pub elected: Vec<(usize, usize)>,
    /// Candidates eliminated so far, each with the ballots held when eliminated.
    pub eliminated: Vec<(usize, usize)>,
    /// Ballots that ran out of contesting preferences.
    pub exhausted: Ghost<nat>,
}

/// The ballots of a list of ballot vectors, as sequences.
pub open spec fn seqs_of(v: Seq<Vec<usize>>) -> Seq<Seq<usize>> {
    v.map_values(|p: Vec<usize>| p@)
}

impl View for Count {
    type V = Tally;

    open spec fn view(&self) -> Tally {
        Tally {
            piles: seqs_of(self.piles@),
            cursor: self.cursor@,
            active: self.active@,
            elected: self.elected@,
            eliminated: self.eliminated@,
            exhausted: self.exhausted@,
        }
    }
}

impl Count {
    /// Starts a count of `ballots` among `n` candidates, from first preferences.
    pub fn open(n: usize, ballots: Vec<Vec<usize>>) -> (count: Count)
        requires
            forall|k: int, j: int|
                0 <= k < ballots@.len() && 0 <= j < ballots@[k]@.len() ==> (#[trigger] ballots@[k]@[j] as int) < n,
        ensures
            count.wf(),
            count.ballots == ballots,
            count.active@.len() == n,
            count@ == opening(n as nat, seqs_of(ballots@)),
            count.elected@.len() == 0,
    {
        let nb = ballots.len();
        let mut piles: Vec<Vec<usize>> = Vec::new();
        let mut active: Vec<bool> = Vec::new();
        let mut c: usize = 0;
        while c < n
            invariant
                c <= n,
                piles@.len() == c,
                active@.len() == c,
                forall|i: int| 0 <= i < c ==> (#[trigger] piles@[i])@ == Seq::<usize>::empty(),
                forall|i: int| 0 <= i < c ==> #[trigger] active@[i],
            decreases n - c,
        {
            piles.push(Vec::new());
            active.push(true);
            c = c + 1;
        }
        let mut cursor: Vec<usize> = Vec::new();
        let mut ids: Vec<usize> = Vec::new();
        let mut k: usize = 0;
        while k < nb
            invariant
                k <= nb,
                cursor@.len() == k,
                ids@.len() == k,
                forall|i: int| 0 <= i < k ==> #[trigger] cursor@[i] == 0,
                forall|i: int| 0 <= i < k ==> #[trigger] ids@[i] == i,
            decreases nb - k,
        {
            cursor.push(0);
            ids.push(k);
            k = k + 1;
        }
        let mut count = Count {
            ballots,
            piles,
            cursor,
            active,
            elected: Vec::new(),
            eliminated: Vec::new(),
            exhausted: Ghost(0),
        };
        let ghost f = fresh(n as nat, nb as nat);
        assert(seqs_of(count.piles@) =~= f.piles);
        assert(count.cursor@ =~= f.cursor);
        assert(count.active@ =~= f.active);
        assert(count.elected@ =~= f.elected);
        assert(count.eliminated@ =~= f.eliminated);
        assert(count@ == f);
        assert(ids@ =~= Seq::new(nb as nat, |k: int| k as usize));
        count.hand_on_all(&ids);
        count
    }

    /// The ballots, as sequences of candidate positions.
    pub open spec fn ballot_seqs(&self) -> Seq<Seq<usize>> {
        seqs_of(self.ballots@)
    }

    /// Sizes agree, every preference names a candidate, every pile holds
    /// ballots of the list, and no cursor runs past its ballot.
    pub open spec fn wf(&self) -> bool {
        &&& self.piles@.len() == self.active@.len()
        &&& self.cursor@.len() == self.ballots@.len()
        &&& forall|k: int, j: int|
            0 <= k < self.ballots@.len() && 0 <= j < self.ballots@[k]@.len()
                ==> (#[trigger] self.ballots@[k]@[j] as int) < self.active@.len()
        &&& forall|c: int, i: int|
            0 <= c < self.piles@.len() && 0 <= i < self.piles@[c]@.len()
                ==> (#[trigger] self.piles@[c]@[i] as int) < self.ballots@.len()
        &&& forall|k: int| 0 <= k < self.cursor@.len() ==> #[trigger] self.cursor@[k] <= self.ballots@[k]@.len()
        &&& forall|i: int| 0 <= i < self.elected@.len() ==> (#[trigger] self.elected@[i]).0 < self.active@.len()
        &&& forall|i: int| 0 <= i < self.eliminated@.len() ==> (#[trigger] self.eliminated@[i]).0 < self.active@.len()
    }

    /// Hands ballot `id` on to its next contesting preference.
    pub fn hand_on(&mut self, id: usize)
        requires
            old(self).wf(),
            id < old(self).ballots@.len(),
        ensures
            final(self).wf(),
            final(self).ballots == old(self).ballots,
            final(self)@ == hand_on(old(self)@, old(self).ballot_seqs(), id),
    {
        let ghost t0 = self@;
        let ghost b = self.ballots@[id as int]@;
        let start = self.cursor[id];
        let mut p = start;
        let len = self.ballots[id].len();
        while p < len && !self.active[self.ballots[id][p]]
            invariant
                self.wf(),
                self@ == t0,
                id < self.ballots@.len(),
                b == self.ballots@[id as int]@,
                len == b.len(),
                start <= p <= len,
                next_pref(b, p as nat, t0.active) == next_pref(b, start as nat, t0.active),
            decreases len - p,
        {
            p = p + 1;
        }
        assert(self.ballot_seqs()[id as int] == b);
        if p < len {
            let c = self.ballots[id][p];
            self.piles[c].push(id);
            self.cursor.set(id, p + 1);
            proof {
                assert(seqs_of(self.piles@) =~= t0.piles.update(c as int, t0.piles[c as int].push(id)));
            }
        } else {
            proof {
                self.exhausted@ = self.exhausted@ + 1;
            }
        }
    }

    /// Hands on each of the ballots `ids`, first to last.
    pub fn hand_on_all(&mut self, ids: &Vec<usize>)
        requires
            old(self).wf(),
            forall|i: int| 0 <= i < ids@.len() ==> (#[trigger] ids@[i] as int) < old(self).ballots@.len(),
        ensures
            final(self).wf(),
            final(self).ballots == old(self).ballots,
            final(self)@ == hand_on_all(old(self)@, old(self).ballot_seqs(), ids@),
            final(self).active@ == old(self).active@,
            final(self).elected@ == old(self).elected@,
            final(self).eliminated@ == old(self).eliminated@,
    {
        let ghost t0 = self@;
        let ghost bs = self.ballot_seqs();
        let ghost b0 = self.ballots;
        let mut j: usize = 0;
        while j < ids.len()
            invariant
                self.wf(),
                self.ballots == b0,
                bs == self.ballot_seqs(),
                j <= ids@.len(),
                forall|i: int| 0 <= i < ids@.len() ==> (#[trigger] ids@[i] as int) < self.ballots@.len(),
                self@ == hand_on_all(t0, bs, ids@.take(j as int)),
            decreases ids@.len() - j,
        {
            self.hand_on(ids[j]);
            assert(ids@.take(j + 1).drop_last() == ids@.take(j as int));
            j = j + 1;
        }
        assert(ids@.take(j as int) == ids@);
        proof {
            lemma_hand_on_all_frame(t0, bs, ids@);
        }
    }

    /// The candidates who hold at least `quota` ballots and are contesting, in list order.
    pub fn winners(&self, quota: usize) -> (ws: Vec<usize>)
        requires
            self.wf(),
        ensures
            ws@ == winners_below(self@, quota as nat, self.active@.len()),
    {
        let mut ws: Vec<usize> = Vec::new();
        let mut c: usize = 0;
        while c < self.active.len()
            invariant
                self.wf(),
                c <= self.active@.len(),
                ws@ == winners_below(self@, quota as nat, c as nat),
            decreases self.active@.len() - c,
        {
            if self.active[c] && self.piles[c].len() >= quota {
                ws.push(c);
            }
            c = c + 1;
        }
        ws
    }

    /// The contesting candidate holding the fewest ballots, the first in the
    /// list on a tie; `None` when nobody is contesting.
    pub fn loser(&self) -> (l: Option<usize>)
        requires
            self.wf(),
        ensures
            l == loser_below(self@, self.active@.len()),
    {
        let mut l: Option<usize> = None;
        let mut c: usize = 0;
        while c < self.active.len()
            invariant
                self.wf(),
                c <= self.active@.len(),
                l == loser_below(self@, c as nat),
                forall|m: usize| l == Some(m) ==> m < c,
            decreases self.active@.len() - c,
        {
            if self.active[c] {
                match l {
                    None => {
                        l = Some(c);
                    },
                    Some(m) => {
                        if self.piles[c].len() < self.piles[m].len() {
                            l = Some(c);
                        }
                    },
                }
            }
            c = c + 1;
        }
        l
    }

    /// Records each of `ws` as elected, with the ballots they hold.
    pub fn elect_all(&mut self, ws: &Vec<usize>)
        requires
            old(self).wf(),
            forall|i: int| 0 <= i < ws@.len() ==> (#[trigger] ws@[i] as int) < old(self).active@.len(),
        ensures
            final(self).wf(),
            final(self).ballots == old(self).ballots,
            final(self)@ == elect_all(old(self)@, ws@),
    {
        let ghost t0 = self@;
        let ghost b0 = self.ballots;
        let mut j: usize = 0;
        while j < ws.len()
            invariant
                self.wf(),
                self.ballots == b0,
                j <= ws@.len(),
                self.active@.len() == t0.active.len(),
                forall|i: int| 0 <= i < ws@.len() ==> (#[trigger] ws@[i] as int) < self.active@.len(),
                self@ == elect_all(t0, ws@.take(j as int)),
            decreases ws@.len() - j,
        {
            let w = ws[j];
            let held = self.piles[w].len();
            self.active.set(w, false);
            self.elected.push((w, held));
            assert(ws@.take(j + 1).drop_last() == ws@.take(j as int));
            j = j + 1;
        }
        assert(ws@.take(j as int) == ws@);
    }

    /// Hands on the surplus of elected candidate `w`, the ballots at positions
    /// `picks` of their pile; `w` keeps the rest.
    pub fn distribute_surplus(&mut self, w: usize, quota: usize, picks: &Vec<usize>)
        requires
            old(self).wf(),
            w < old(self).active@.len(),
            is_draw(picks@, old(self)@.piles[w as int].len(), (old(self)@.piles[w as int].len() - quota) as nat),
        ensures
            final(self).wf(),
            final(self).ballots == old(self).ballots,
            final(self)@ == distribute_surplus(old(self)@, old(self).ballot_seqs(), w, quota as nat, picks@),
            final(self).active@ == old(self).active@,
            final(self).elected@ == old(self).elected@,
    {
        let ghost t0 = self@;
        let mut pile: Vec<usize> = Vec::new();
        std::mem::swap(&mut pile, &mut self.piles[w]);
        assert(pile@ == t0.piles[w as int]);
        let mut ids: Vec<usize> = Vec::new();
        let mut j: usize = 0;
        while j < picks.len()
            invariant
                j <= picks@.len(),
                pile@ == t0.piles[w as int],
                is_draw(picks@, pile@.len(), (pile@.len() - quota) as nat),
                ids@ == picks@.take(j as int).map_values(|i: usize| pile@[i as int]),
            decreases picks@.len() - j,
        {
            ids.push(pile[picks[j]]);
            assert(picks@.take(j + 1).map_values(|i: usize| pile@[i as int])
                =~= picks@.take(j as int).map_values(|i: usize| pile@[i as int]).push(pile@[picks@[j as int] as int]));
            j = j + 1;
        }
        assert(picks@.take(j as int) == picks@);
        assert(seqs_of(self.piles@) =~= t0.piles.update(w as int, seq![]));
        assert forall|i: int| 0 <= i < ids@.len() implies (#[trigger] ids@[i] as int) < self.ballots@.len() by {
            assert(ids@[i] == t0.piles[w as int][picks@[i] as int]);
        }
        self.hand_on_all(&ids);
    }

    /// Eliminates `l` and hands on every ballot they hold.
    pub fn eliminate(&mut self, l: usize)
        requires
            old(self).wf(),
            l < old(self).active@.len(),
        ensures
            final(self).wf(),
            final(self).ballots == old(self).ballots,
            final(self)@ == eliminate(old(self)@, old(self).ballot_seqs(), l),
            final(self).active@ == old(self).active@.update(l as int, false),
            final(self).elected@ == old(self).elected@,
    {
        let ghost t0 = self@;
        let mut pile: Vec<usize> = Vec::new();
        std::mem::swap(&mut pile, &mut self.piles[l]);
        assert(pile@ == t0.piles[l as int]);
        self.active.set(l, false);
        self.eliminated.push((l, pile.len()));
        assert(seqs_of(self.piles@) =~= t0.piles.update(l as int, seq![]));
        assert forall|i: int| 0 <= i < pile@.len() implies (#[trigger] pile@[i] as int) < self.ballots@.len() by {
            assert(pile@[i] == t0.piles[l as int][i]);
        }
        self.hand_on_all(&pile);
    }
}

} // verus!
