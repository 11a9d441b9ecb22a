//! The count as mathematics: where every ballot stands, and how one round
//! changes that.
//!
//! Ballots are named by their position in a fixed list of ballots, and
//! candidates by their position in the candidate list. A ballot is a sequence
//! of candidate positions, most preferred first.
use vstd::prelude::*;

verus! {

/// Where a count stands.
pub ghost struct Tally {
    /// For each candidate, the ballots credited to them, in the order they came.
    pub piles: Seq<Seq<usize>>,
    /// For each ballot, the position of the next preference still to be read.
    pub cursor: Seq<usize>,
    /// For each candidate, whether they are still contesting.
    pub active: Seq<bool>,
    /// Candidates elected so far, in order, each with the ballots held when elected.
    pub elected: Seq<(usize, usize)>,
    /// Candidates eliminated so far, in order, each with the ballots held when eliminated.
    pub eliminated: Seq<(usize, usize)>,
    /// Ballots that ran out of contesting preferences.
    pub exhausted: nat,
}

/// Whether candidate `c` is still contesting.
pub open spec fn contesting(active: Seq<bool>, c: int) -> bool {
    0 <= c < active.len() && active[c]
}

/// The first position at or after `from` whose preference is still contesting,
/// or the ballot's length when there is none.
pub open spec fn next_pref(b: Seq<usize>, from: nat, active: Seq<bool>) -> nat
    decreases b.len() - from,
{
    if from >= b.len() {
        b.len()
    } else if contesting(active, b[from as int] as int) {
        from
    } else {
        next_pref(b, from + 1, active)
    }
}

/// Hands ballot `id` on to its next contesting preference, or counts it
/// exhausted when it has none.
pub open spec fn hand_on(t: Tally, ballots: Seq<Seq<usize>>, id: usize) -> Tally {
    let b = ballots[id as int];
    let p = next_pref(b, t.cursor[id as int] as nat, t.active);
    if p < b.len() {
        let c = b[p as int] as int;
        Tally {
            piles: t.piles.update(c, t.piles[c].push(id)),
            cursor: t.cursor.update(id as int, (p + 1) as usize),
            ..t
        }
    } else {
        Tally { exhausted: t.exhausted + 1, ..t }
    }
}

/// Hands on each of the ballots `ids`, first to last.
pub open spec fn hand_on_all(t: Tally, ballots: Seq<Seq<usize>>, ids: Seq<usize>) -> Tally
    decreases ids.len(),
{
    if ids.len() == 0 {
        t
    } else {
        hand_on(hand_on_all(t, ballots, ids.drop_last()), ballots, ids.last())
    }
}

/// A count before any ballot is placed: `n` candidates, all contesting,
/// and every ballot yet to be read from its first preference.
pub open spec fn fresh(n: nat, num_ballots: nat) -> Tally {
    Tally {
        piles: Seq::new(n, |c: int| Seq::<usize>::empty()),
        cursor: Seq::new(num_ballots, |k: int| 0usize),
        active: Seq::new(n, |c: int| true),
        elected: seq![],
        eliminated: seq![],
        exhausted: 0,
    }
}

/// First preferences: every ballot credited to the candidate it names first,
/// and every empty ballot exhausted.
pub open spec fn opening(n: nat, ballots: Seq<Seq<usize>>) -> Tally {
    hand_on_all(fresh(n, ballots.len()), ballots, Seq::new(ballots.len(), |k: int| k as usize))
}

/// The candidates below `n` that are contesting and hold at least `quota`
/// ballots, in list order.
pub open spec fn winners_below(t: Tally, quota: nat, n: nat) -> Seq<usize>
    decreases n,
{
    if n == 0 {
        seq![]
    } else {
        let ws = winners_below(t, quota, (n - 1) as nat);
        let c = n - 1;
        if contesting(t.active, c) && t.piles[c].len() >= quota {
            ws.push(c as usize)
        } else {
            ws
        }
    }
}

/// The candidates who reach `quota` this round, in list order.
pub open spec fn winners(t: Tally, quota: nat) -> Seq<usize> {
    winners_below(t, quota, t.active.len())
}

/// Among the candidates below `n`, the contesting one holding the fewest
/// ballots; on a tie, the one that comes first in the list.
pub open spec fn loser_below(t: Tally, n: nat) -> Option<usize>
    decreases n,
{
    if n == 0 {
        None
    } else {
        let c = n - 1;
        let l = loser_below(t, (n - 1) as nat);
        if !contesting(t.active, c) {
            l
        } else {
            match l {
                None => Some(c as usize),
                Some(m) => if t.piles[c].len() < t.piles[m as int].len() {
                    Some(c as usize)
                } else {
                    l
                },
            }
        }
    }
}

/// The candidate to eliminate when nobody reaches the quota.
pub open spec fn loser(t: Tally) -> Option<usize> {
    loser_below(t, t.active.len())
}

/// Records `w` as elected with the ballots they hold.
pub open spec fn elect(t: Tally, w: usize) -> Tally {
    Tally {
        active: t.active.update(w as int, false),
        elected: t.elected.push((w, t.piles[w as int].len() as usize)),
        ..t
    }
}

/// Records each of `ws` as elected, first to last.
pub open spec fn elect_all(t: Tally, ws: Seq<usize>) -> Tally
    decreases ws.len(),
{
    if ws.len() == 0 {
        t
    } else {
        elect(elect_all(t, ws.drop_last()), ws.last())
    }
}

/// Whether `picks` are `amount` distinct positions below `len`.
pub open spec fn is_draw(picks: Seq<usize>, len: nat, amount: nat) -> bool {
    &&& picks.len() == amount
    &&& picks.no_duplicates()
    &&& forall|i: int| 0 <= i < picks.len() ==> (#[trigger] picks[i] as nat) < len
}

/// The positions drawn: `picks` when they are a draw, else the first `amount`.
pub open spec fn drawn(picks: Seq<usize>, len: nat, amount: nat) -> Seq<usize> {
    if is_draw(picks, len, amount) {
        picks
    } else {
        Seq::new(amount, |i: int| i as usize)
    }
}

/// Hands on the surplus of elected candidate `w`: the ballots at positions
/// `picks` of their pile. The rest of the pile stays with `w` for good.
pub open spec fn distribute_surplus(
    t: Tally,
    ballots: Seq<Seq<usize>>,
    w: usize,
    quota: nat,
    picks: Seq<usize>,
) -> Tally {
    let pile = t.piles[w as int];
    let d = drawn(picks, pile.len(), (pile.len() - quota) as nat);
    hand_on_all(
        Tally { piles: t.piles.update(w as int, seq![]), ..t },
        ballots,
        d.map_values(|i: usize| pile[i as int]),
    )
}

/// Hands on the surplus of each of `ws` in turn, `draws[i]` drawing that of `ws[i]`.
pub open spec fn distribute_surpluses(
    t: Tally,
    ballots: Seq<Seq<usize>>,
    ws: Seq<usize>,
    quota: nat,
    draws: Seq<Seq<usize>>,
) -> Tally
    decreases ws.len(),
{
    if ws.len() == 0 {
        t
    } else {
        let t1 = distribute_surpluses(t, ballots, ws.drop_last(), quota, draws.drop_last());
        distribute_surplus(t1, ballots, ws.last(), quota, draws.last())
    }
}

/// Eliminates `l` and hands on every ballot they hold.
pub open spec fn eliminate(t: Tally, ballots: Seq<Seq<usize>>, l: usize) -> Tally {
    let pile = t.piles[l as int];
    hand_on_all(
        Tally {
            piles: t.piles.update(l as int, seq![]),
            active: t.active.update(l as int, false),
            eliminated: t.eliminated.push((l, pile.len() as usize)),
            ..t
        },
        ballots,
        pile,
    )
}

/// One round. Everyone at or over the quota is elected and their surpluses
/// handed on; the `k`-th candidate elected in the whole count draws with
/// `draws[k]`. When nobody reaches the quota, the loser is eliminated.
pub open spec fn round(t: Tally, ballots: Seq<Seq<usize>>, quota: nat, draws: Seq<Seq<usize>>) -> Tally {
    let ws = winners(t, quota);
    if ws.len() > 0 {
        let k = t.elected.len() as int;
        distribute_surpluses(elect_all(t, ws), ballots, ws, quota, draws.subrange(k, k + ws.len()))
    } else {
        match loser(t) {
            Some(l) => eliminate(t, ballots, l),
            None => t,
        }
    }
}

/// How a count ends.
pub ghost enum Outcome {
    /// Every seat is filled.
    Complete(Tally),
    /// Nobody is left to eliminate and seats remain.
    Short(Tally),
    /// The rounds allowed ran out first.
    Unfinished,
}

/// The count from `t` on, for at most `fuel` more rounds.
pub open spec fn run(
    t: Tally,
    ballots: Seq<Seq<usize>>,
    quota: nat,
    seats: nat,
    draws: Seq<Seq<usize>>,
    fuel: nat,
) -> Outcome
    decreases fuel,
{
    if t.elected.len() >= seats {
        Outcome::Complete(t)
    } else if loser(t) is None {
        Outcome::Short(t)
    } else if fuel == 0 {
        Outcome::Unfinished
    } else {
        run(round(t, ballots, quota, draws), ballots, quota, seats, draws, (fuel - 1) as nat)
    }
}

/// Whether `d` begins with `prefix`.
pub open spec fn extends(d: Seq<Seq<usize>>, prefix: Seq<Seq<usize>>) -> bool {
    d.len() >= prefix.len() && d.take(prefix.len() as int) == prefix
}

/// One more round of a count: if every run that begins with the draws
/// `draws0` reaches `cur`, and `cur`'s round with the draws `draws1` leads to
/// `next`, then every run beginning with `draws1` reaches `next`.
pub proof fn lemma_run_step(
    t0: Tally,
    ballots: Seq<Seq<usize>>,
    quota: nat,
    seats: nat,
    n: nat,
    cur: Tally,
    next: Tally,
    draws0: Seq<Seq<usize>>,
    draws1: Seq<Seq<usize>>,
    fuel: nat,
)
    requires
        forall|d: Seq<Seq<usize>>|
            #[trigger] extends(d, draws0) ==> run(t0, ballots, quota, seats, d, n) == run(
                cur,
                ballots,
                quota,
                seats,
                d,
                fuel,
            ),
        extends(draws1, draws0),
        forall|d: Seq<Seq<usize>>| #[trigger] extends(d, draws1) ==> round(cur, ballots, quota, d) == next,
        cur.elected.len() < seats,
        loser(cur) is Some,
        fuel >= 1,
    ensures
        forall|d: Seq<Seq<usize>>|
            #[trigger] extends(d, draws1) ==> run(t0, ballots, quota, seats, d, n) == run(
                next,
                ballots,
                quota,
                seats,
                d,
                (fuel - 1) as nat,
            ),
{
    assert forall|d: Seq<Seq<usize>>| #[trigger] extends(d, draws1) implies run(t0, ballots, quota, seats, d, n)
        == run(next, ballots, quota, seats, d, (fuel - 1) as nat) by {
        assert(d.take(draws0.len() as int) =~= draws0) by {
            assert forall|i: int| 0 <= i < draws0.len() implies d.take(draws0.len() as int)[i] == draws0[i] by {
                assert(d.take(draws1.len() as int)[i] == draws1[i]);
                assert(draws1.take(draws0.len() as int)[i] == draws0[i]);
            }
        }
        assert(extends(d, draws0));
    }
}

/// The number of candidates still contesting.
pub open spec fn count_active(active: Seq<bool>) -> nat
    decreases active.len(),
{
    if active.len() == 0 {
        0
    } else {
        count_active(active.drop_last()) + if active.last() { 1nat } else { 0nat }
    }
}

/// A ballot is handed on only to a contesting candidate, never backwards.
pub proof fn lemma_next_pref(b: Seq<usize>, from: nat, active: Seq<bool>)
    ensures
        from <= next_pref(b, from, active) || next_pref(b, from, active) == b.len(),
        next_pref(b, from, active) <= b.len(),
        next_pref(b, from, active) < b.len() ==> contesting(active, b[next_pref(b, from, active) as int] as int),
    decreases b.len() - from,
{
    if from < b.len() && !contesting(active, b[from as int] as int) {
        lemma_next_pref(b, from + 1, active);
    }
}

/// Handing one ballot on touches only the pile of a contesting candidate.
pub proof fn lemma_hand_on_frame(t: Tally, ballots: Seq<Seq<usize>>, id: usize)
    requires
        t.piles.len() == t.active.len(),
    ensures
        hand_on(t, ballots, id).active == t.active,
        hand_on(t, ballots, id).elected == t.elected,
        hand_on(t, ballots, id).eliminated == t.eliminated,
        hand_on(t, ballots, id).piles.len() == t.piles.len(),
        forall|c: int|
            0 <= c < t.piles.len() && !contesting(t.active, c)
                ==> #[trigger] hand_on(t, ballots, id).piles[c] == t.piles[c],
{
    lemma_next_pref(ballots[id as int], t.cursor[id as int] as nat, t.active);
}

/// Handing ballots on touches only the piles of contesting candidates.
pub proof fn lemma_hand_on_all_frame(t: Tally, ballots: Seq<Seq<usize>>, ids: Seq<usize>)
    requires
        t.piles.len() == t.active.len(),
    ensures
        hand_on_all(t, ballots, ids).active == t.active,
        hand_on_all(t, ballots, ids).elected == t.elected,
        hand_on_all(t, ballots, ids).eliminated == t.eliminated,
        hand_on_all(t, ballots, ids).piles.len() == t.piles.len(),
        forall|c: int|
            0 <= c < t.piles.len() && !contesting(t.active, c)
                ==> #[trigger] hand_on_all(t, ballots, ids).piles[c] == t.piles[c],
    decreases ids.len(),
{
    if ids.len() > 0 {
        lemma_hand_on_all_frame(t, ballots, ids.drop_last());
        lemma_hand_on_frame(hand_on_all(t, ballots, ids.drop_last()), ballots, ids.last());
    }
}

/// Handing on surpluses changes neither who is contesting nor the records,
/// and touches no pile of a decided candidate outside `ws`.
pub proof fn lemma_distribute_frame(
    t: Tally,
    ballots: Seq<Seq<usize>>,
    ws: Seq<usize>,
    quota: nat,
    draws: Seq<Seq<usize>>,
)
    requires
        t.piles.len() == t.active.len(),
        forall|i: int| 0 <= i < ws.len() ==> (#[trigger] ws[i] as int) < t.piles.len(),
    ensures
        distribute_surpluses(t, ballots, ws, quota, draws).active == t.active,
        distribute_surpluses(t, ballots, ws, quota, draws).elected == t.elected,
        distribute_surpluses(t, ballots, ws, quota, draws).eliminated == t.eliminated,
        distribute_surpluses(t, ballots, ws, quota, draws).piles.len() == t.piles.len(),
        forall|c: int|
            0 <= c < t.piles.len() && !contesting(t.active, c) && !ws.contains(c as usize)
                ==> #[trigger] distribute_surpluses(t, ballots, ws, quota, draws).piles[c] == t.piles[c],
    decreases ws.len(),
{
    if ws.len() > 0 {
        let t1 = distribute_surpluses(t, ballots, ws.drop_last(), quota, draws.drop_last());
        lemma_distribute_frame(t, ballots, ws.drop_last(), quota, draws.drop_last());
        let w = ws.last();
        let pile = t1.piles[w as int];
        let d = drawn(draws.last(), pile.len(), (pile.len() - quota) as nat);
        let t2 = Tally { piles: t1.piles.update(w as int, seq![]), ..t1 };
        lemma_hand_on_all_frame(t2, ballots, d.map_values(|i: usize| pile[i as int]));
        assert forall|c: int|
            0 <= c < t.piles.len() && !contesting(t.active, c) && !ws.contains(c as usize)
                implies #[trigger] distribute_surpluses(t, ballots, ws, quota, draws).piles[c] == t.piles[c] by {
            assert(!ws.drop_last().contains(c as usize)) by {
                if ws.drop_last().contains(c as usize) {
                    let i = choose|i: int| 0 <= i < ws.drop_last().len() && ws.drop_last()[i] == c as usize;
                    assert(ws[i] == c as usize);
                }
            }
            assert(ws[ws.len() - 1] != c as usize);
        }
    }
}

/// The winners lie below `n`, in increasing order, each contesting and at
/// or over the quota.
pub proof fn lemma_winners(t: Tally, quota: nat, n: nat)
    requires
        n <= usize::MAX,
    ensures
        forall|i: int|
            0 <= i < winners_below(t, quota, n).len() ==> {
                let w = #[trigger] winners_below(t, quota, n)[i];
                &&& (w as int) < n
                &&& contesting(t.active, w as int)
                &&& t.piles[w as int].len() >= quota
            },
        forall|i: int, j: int|
            0 <= i < j < winners_below(t, quota, n).len()
                ==> #[trigger] winners_below(t, quota, n)[i] < #[trigger] winners_below(t, quota, n)[j],
    decreases n,
{
    if n > 0 {
        let m = (n - 1) as nat;
        lemma_winners(t, quota, m);
        let ws = winners_below(t, quota, m);
        let all = winners_below(t, quota, n);
        if contesting(t.active, m as int) && t.piles[m as int].len() >= quota {
            assert(all == ws.push(m as usize));
            assert forall|i: int| 0 <= i < ws.len() implies #[trigger] all[i] == ws[i] by {}
            assert(all[ws.len() as int] == m as usize);
        } else {
            assert(all == ws);
        }
    }
}

/// There is a loser exactly when someone below `n` is contesting, and the
/// loser is one of them.
pub proof fn lemma_loser(t: Tally, n: nat)
    requires
        n <= usize::MAX,
    ensures
        loser_below(t, n) is None <==> forall|c: int| 0 <= c < n ==> !contesting(t.active, c),
        loser_below(t, n) matches Some(l) ==> (l as int) < n && contesting(t.active, l as int),
    decreases n,
{
    if n > 0 {
        lemma_loser(t, (n - 1) as nat);
        if loser_below(t, n) is None {
            assert forall|c: int| 0 <= c < n implies !contesting(t.active, c) by {
                if c < n - 1 {
                } else {
                }
            }
        }
    }
}

/// Electing `ws` takes exactly them out of the contest and records them all.
pub proof fn lemma_elect_all(t: Tally, ws: Seq<usize>)
    requires
        t.active.len() <= usize::MAX,
        forall|i: int| 0 <= i < ws.len() ==> (#[trigger] ws[i] as int) < t.active.len(),
    ensures
        elect_all(t, ws).active.len() == t.active.len(),
        forall|c: int|
            0 <= c < t.active.len() ==> #[trigger] elect_all(t, ws).active[c] == (t.active[c]
                && !ws.contains(c as usize)),
        elect_all(t, ws).piles == t.piles,
        elect_all(t, ws).cursor == t.cursor,
        elect_all(t, ws).eliminated == t.eliminated,
        elect_all(t, ws).exhausted == t.exhausted,
        elect_all(t, ws).elected.len() == t.elected.len() + ws.len(),
        elect_all(t, ws).elected.take(t.elected.len() as int) == t.elected,
        forall|i: int|
            0 <= i < ws.len() ==> #[trigger] elect_all(t, ws).elected[t.elected.len() + i] == (
            ws[i],
            t.piles[ws[i] as int].len() as usize,
        ),
    decreases ws.len(),
{
    if ws.len() > 0 {
        let ws0 = ws.drop_last();
        lemma_elect_all(t, ws0);
        let t1 = elect_all(t, ws0);
        assert forall|c: int| 0 <= c < t.active.len() implies #[trigger] elect_all(t, ws).active[c] == (
        t.active[c] && !ws.contains(c as usize)) by {
            if ws.contains(c as usize) {
                let i = choose|i: int| 0 <= i < ws.len() && ws[i] == c as usize;
                if i < ws.len() - 1 {
                    assert(ws0[i] == c as usize);
                }
            } else {
                assert(!ws0.contains(c as usize)) by {
                    if ws0.contains(c as usize) {
                        let i = choose|i: int| 0 <= i < ws0.len() && ws0[i] == c as usize;
                        assert(ws[i] == c as usize);
                    }
                }
            }
        }
        assert(elect_all(t, ws).elected.take(t.elected.len() as int) =~= t.elected);
        assert forall|i: int| 0 <= i < ws.len() implies #[trigger] elect_all(t, ws).elected[t.elected.len() + i]
            == (ws[i], t.piles[ws[i] as int].len() as usize) by {
            if i < ws.len() - 1 {
                assert(ws0[i] == ws[i]);
            }
        }
    }
}

/// Taking candidates out of the contest, and at least one who was in it,
/// lowers the number contesting.
pub proof fn lemma_count_active_drops(a: Seq<bool>, b: Seq<bool>, j: int)
    requires
        a.len() == b.len(),
        forall|i: int| 0 <= i < b.len() && #[trigger] b[i] ==> a[i],
        0 <= j < a.len(),
        a[j],
        !b[j],
    ensures
        count_active(b) < count_active(a),
    decreases a.len(),
{
    lemma_count_active_le(a.drop_last(), b.drop_last());
    if j < a.len() - 1 {
        lemma_count_active_drops(a.drop_last(), b.drop_last(), j);
    }
}

/// No more candidates contest than there are.
pub proof fn lemma_count_active_bound(a: Seq<bool>)
    ensures
        count_active(a) <= a.len(),
    decreases a.len(),
{
    if a.len() > 0 {
        lemma_count_active_bound(a.drop_last());
    }
}

/// Taking candidates out of the contest never raises the number contesting.
pub proof fn lemma_count_active_le(a: Seq<bool>, b: Seq<bool>)
    requires
        a.len() == b.len(),
        forall|i: int| 0 <= i < b.len() && #[trigger] b[i] ==> a[i],
    ensures
        count_active(b) <= count_active(a),
    decreases a.len(),
{
    if a.len() > 0 {
        lemma_count_active_le(a.drop_last(), b.drop_last());
    }
}

} // verus!
