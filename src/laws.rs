//! What holds of every count: who is decided, where every ballot is, and
//! that a count always ends.
use vstd::prelude::*;

use crate::election::droop_quota;
use crate::tally::{
    contesting, count_active, distribute_surpluses, drawn, elect_all, eliminate, fresh, hand_on_all,
    lemma_count_active_bound, lemma_count_active_drops, lemma_distribute_frame, lemma_elect_all,
    lemma_hand_on_all_frame, lemma_loser, lemma_next_pref, lemma_winners, loser, next_pref, opening,
    round, run, winners, Outcome, Tally,
};

verus! {

/// The ballots held in all the piles together.
pub open spec fn sum_lens(piles: Seq<Seq<usize>>) -> nat
    decreases piles.len(),
{
    if piles.len() == 0 {
        0
    } else {
        sum_lens(piles.drop_last()) + piles.last().len()
    }
}

/// Every decided candidate is decided once: each elected or eliminated
/// candidate is one of the list and no longer contesting, nobody is recorded
/// twice or in both lists, and those recorded together with those still
/// contesting are all the candidates.
pub open spec fn decided_once(t: Tally) -> bool {
    let n = t.active.len();
    &&& forall|i: int| 0 <= i < t.elected.len() ==> {
        let c = (#[trigger] t.elected[i]).0 as int;
        c < n && !t.active[c]
    }
    &&& forall|i: int| 0 <= i < t.eliminated.len() ==> {
        let c = (#[trigger] t.eliminated[i]).0 as int;
        c < n && !t.active[c]
    }
    &&& forall|i: int, j: int|
        0 <= i < j < t.elected.len() ==> (#[trigger] t.elected[i]).0 != (#[trigger] t.elected[j]).0
    &&& forall|i: int, j: int|
        0 <= i < j < t.eliminated.len() ==> (#[trigger] t.eliminated[i]).0 != (#[trigger] t.eliminated[j]).0
    &&& forall|i: int, j: int|
        0 <= i < t.elected.len() && 0 <= j < t.eliminated.len() ==> (#[trigger] t.elected[i]).0
            != (#[trigger] t.eliminated[j]).0
    &&& t.elected.len() + t.eliminated.len() + count_active(t.active) == n
}

/// No ballot is made or lost but by exhaustion: the ballots with contesting
/// candidates, a quota's worth kept by each elected candidate, and the
/// exhausted ballots make up all the ballots counted.
pub open spec fn conserved(t: Tally, ballots: Seq<Seq<usize>>, quota: nat) -> bool {
    sum_lens(t.piles) + quota * t.elected.len() + t.exhausted == ballots.len()
}

/// A state that a count of `ballots` with `quota` can be in: sizes agree,
/// every preference names a candidate, a decided candidate holds no pile,
/// candidates are decided once, and ballots are conserved.
pub open spec fn counted(t: Tally, ballots: Seq<Seq<usize>>, quota: nat) -> bool {
    &&& t.piles.len() == t.active.len()
    &&& t.active.len() <= usize::MAX
    &&& forall|k: int, j: int|
        0 <= k < ballots.len() && 0 <= j < ballots[k].len() ==> (#[trigger] ballots[k][j] as int)
            < t.active.len()
    &&& forall|c: int| 0 <= c < t.piles.len() && !t.active[c] ==> #[trigger] t.piles[c].len() == 0
    &&& decided_once(t)
    &&& conserved(t, ballots, quota)
}

/// Whatever surplus ballots are drawn, a count of `ballots` among `n`
/// candidates ends within `n` rounds, either with every seat filled or with
/// nobody left to eliminate; and where it ends, every decided candidate is
/// decided once and every ballot is accounted for.
pub proof fn lemma_count_ends(
    n: nat,
    ballots: Seq<Seq<usize>>,
    quota: nat,
    seats: nat,
    draws: Seq<Seq<usize>>,
)
    requires
        n <= usize::MAX,
        forall|k: int, j: int|
            0 <= k < ballots.len() && 0 <= j < ballots[k].len() ==> (#[trigger] ballots[k][j] as int) < n,
    ensures
        match run(opening(n, ballots), ballots, quota, seats, draws, n) {
            Outcome::Complete(t) => counted(t, ballots, quota),
            Outcome::Short(t) => counted(t, ballots, quota),
            Outcome::Unfinished => false,
        },
{
    lemma_opening_counted(n, ballots, quota);
    lemma_hand_on_all_frame(fresh(n, ballots.len()), ballots, Seq::new(ballots.len(), |k: int| k as usize));
    lemma_count_active_bound(opening(n, ballots).active);
    lemma_run_counted(opening(n, ballots), ballots, quota, seats, draws, n);
}

/// With more seats than candidates, every count ends short of filling them.
pub proof fn lemma_more_seats_than_candidates(
    n: nat,
    ballots: Seq<Seq<usize>>,
    quota: nat,
    seats: nat,
    draws: Seq<Seq<usize>>,
)
    requires
        n <= usize::MAX,
        forall|k: int, j: int|
            0 <= k < ballots.len() && 0 <= j < ballots[k].len() ==> (#[trigger] ballots[k][j] as int) < n,
        seats > n,
    ensures
        run(opening(n, ballots), ballots, quota, seats, draws, n) is Short,
{
    lemma_count_ends(n, ballots, quota, seats, draws);
    lemma_opening_counted(n, ballots, quota);
    lemma_hand_on_all_frame(fresh(n, ballots.len()), ballots, Seq::new(ballots.len(), |k: int| k as usize));
    lemma_run_counted(opening(n, ballots), ballots, quota, seats, draws, n);
}

/// With the Droop quota, a count that fills the seats elects exactly as
/// many candidates as there are seats.
pub proof fn lemma_complete_fills_seats(
    n: nat,
    ballots: Seq<Seq<usize>>,
    seats: nat,
    draws: Seq<Seq<usize>>,
)
    requires
        n <= usize::MAX,
        forall|k: int, j: int|
            0 <= k < ballots.len() && 0 <= j < ballots[k].len() ==> (#[trigger] ballots[k][j] as int) < n,
    ensures
        run(opening(n, ballots), ballots, droop_quota(ballots.len(), seats), seats, draws, n) matches Outcome::Complete(
            t,
        ) ==> t.elected.len() == seats,
{
    let quota = droop_quota(ballots.len(), seats);
    lemma_opening_counted(n, ballots, quota);
    lemma_run_counted(opening(n, ballots), ballots, quota, seats, draws, n);
    if let Outcome::Complete(t) = run(opening(n, ballots), ballots, quota, seats, draws, n) {
        let e = t.elected.len();
        let total = ballots.len();
        assert(quota * e <= total);
        assert(e <= seats) by (nonlinear_arith)
            requires
                quota == total / (seats + 1) + 1,
                quota * e <= total,
        ;
    }
}

/// Replacing one pile changes the total by the difference in size.
proof fn lemma_sum_update(piles: Seq<Seq<usize>>, c: int, p: Seq<usize>)
    requires
        0 <= c < piles.len(),
    ensures
        sum_lens(piles.update(c, p)) + piles[c].len() == sum_lens(piles) + p.len(),
    decreases piles.len(),
{
    if c < piles.len() - 1 {
        lemma_sum_update(piles.drop_last(), c, p);
        assert(piles.update(c, p).drop_last() == piles.drop_last().update(c, p));
    } else {
        assert(piles.update(c, p).drop_last() == piles.drop_last());
    }
}

/// Each ballot handed on lands in one pile or among the exhausted.
proof fn lemma_hand_on_all_total(t: Tally, ballots: Seq<Seq<usize>>, ids: Seq<usize>)
    requires
        t.piles.len() == t.active.len(),
    ensures
        sum_lens(hand_on_all(t, ballots, ids).piles) + hand_on_all(t, ballots, ids).exhausted == sum_lens(
            t.piles,
        ) + t.exhausted + ids.len(),
    decreases ids.len(),
{
    if ids.len() > 0 {
        lemma_hand_on_all_total(t, ballots, ids.drop_last());
        lemma_hand_on_all_frame(t, ballots, ids.drop_last());
        let t1 = hand_on_all(t, ballots, ids.drop_last());
        let id = ids.last();
        let b = ballots[id as int];
        let p = next_pref(b, t1.cursor[id as int] as nat, t1.active);
        lemma_next_pref(b, t1.cursor[id as int] as nat, t1.active);
        if p < b.len() {
            let c = b[p as int] as int;
            lemma_sum_update(t1.piles, c, t1.piles[c].push(id));
        }
    }
}

/// Every candidate contesting counts one.
proof fn lemma_count_active_all(n: nat)
    ensures
        count_active(Seq::new(n, |c: int| true)) == n,
    decreases n,
{
    if n > 0 {
        lemma_count_active_all((n - 1) as nat);
        assert(Seq::new(n, |c: int| true).drop_last() == Seq::new((n - 1) as nat, |c: int| true));
    }
}

/// Taking one contesting candidate out lowers the number contesting by one.
proof fn lemma_count_active_update(a: Seq<bool>, j: int)
    requires
        0 <= j < a.len(),
        a[j],
    ensures
        count_active(a.update(j, false)) + 1 == count_active(a),
    decreases a.len(),
{
    if j < a.len() - 1 {
        lemma_count_active_update(a.drop_last(), j);
        assert(a.update(j, false).drop_last() == a.drop_last().update(j, false));
    } else {
        assert(a.update(j, false).drop_last() == a.drop_last());
    }
}

/// The opening of a count is a state the count can be in.
pub proof fn lemma_opening_counted(n: nat, ballots: Seq<Seq<usize>>, quota: nat)
    requires
        n <= usize::MAX,
        forall|k: int, j: int|
            0 <= k < ballots.len() && 0 <= j < ballots[k].len() ==> (#[trigger] ballots[k][j] as int) < n,
    ensures
        counted(opening(n, ballots), ballots, quota),
{
    let f = fresh(n, ballots.len());
    let ids = Seq::new(ballots.len(), |k: int| k as usize);
    lemma_hand_on_all_frame(f, ballots, ids);
    lemma_hand_on_all_total(f, ballots, ids);
    lemma_count_active_all(n);
    assert(sum_lens(f.piles) == 0) by {
        lemma_sum_empty(n);
    }
    let t = opening(n, ballots);
    assert(t.elected.len() == 0);
    assert(quota * t.elected.len() == 0);
    assert(decided_once(t));
    assert(conserved(t, ballots, quota));
}

/// Eliminating a contesting candidate keeps the count a state it can be
/// in, and one fewer candidate contests.
proof fn lemma_eliminate_counted(t: Tally, ballots: Seq<Seq<usize>>, quota: nat, l: usize)
    requires
        counted(t, ballots, quota),
        contesting(t.active, l as int),
    ensures
        counted(eliminate(t, ballots, l), ballots, quota),
        count_active(eliminate(t, ballots, l).active) + 1 == count_active(t.active),
        eliminate(t, ballots, l).active.len() == t.active.len(),
{
    let pile = t.piles[l as int];
    let t2 = Tally {
        piles: t.piles.update(l as int, seq![]),
        active: t.active.update(l as int, false),
        eliminated: t.eliminated.push((l, pile.len() as usize)),
        ..t
    };
    let r = eliminate(t, ballots, l);
    lemma_hand_on_all_frame(t2, ballots, pile);
    lemma_hand_on_all_total(t2, ballots, pile);
    lemma_sum_update(t.piles, l as int, seq![]);
    lemma_count_active_update(t.active, l as int);
    assert forall|c: int| 0 <= c < r.piles.len() && !r.active[c] implies #[trigger] r.piles[c].len() == 0 by {
        assert(!contesting(t2.active, c));
        if c != l as int {
            assert(!t.active[c]);
        }
    }
    assert forall|i: int, j: int| 0 <= i < j < r.eliminated.len() implies (#[trigger] r.eliminated[i]).0
        != (#[trigger] r.eliminated[j]).0 by {
        if j == r.eliminated.len() - 1 {
            assert(!t.active[t.eliminated[i].0 as int]);
        } else {
            assert(t.eliminated[i] == r.eliminated[i] && t.eliminated[j] == r.eliminated[j]);
        }
    }
    assert forall|i: int, j: int|
        0 <= i < r.elected.len() && 0 <= j < r.eliminated.len() implies (#[trigger] r.elected[i]).0
            != (#[trigger] r.eliminated[j]).0 by {
        if j == r.eliminated.len() - 1 {
            assert(!t.active[t.elected[i].0 as int]);
        } else {
            assert(t.eliminated[j] == r.eliminated[j]);
        }
    }
    assert forall|i: int| 0 <= i < r.eliminated.len() implies {
        let c = (#[trigger] r.eliminated[i]).0 as int;
        c < r.active.len() && !r.active[c]
    } by {
        if i < r.eliminated.len() - 1 {
            assert(t.eliminated[i] == r.eliminated[i]);
        }
    }
    assert(decided_once(r));
}

/// The number contesting after electing `ws`, all contesting and in
/// increasing order, is that many fewer.
proof fn lemma_elect_all_count(t: Tally, ws: Seq<usize>)
    requires
        forall|i: int| 0 <= i < ws.len() ==> contesting(t.active, #[trigger] ws[i] as int),
        forall|i: int, j: int| 0 <= i < j < ws.len() ==> #[trigger] ws[i] < #[trigger] ws[j],
    ensures
        count_active(elect_all(t, ws).active) + ws.len() == count_active(t.active),
        elect_all(t, ws).active.len() == t.active.len(),
        forall|i: int| 0 <= i < ws.len() ==> !#[trigger] elect_all(t, ws).active[ws[i] as int],
        forall|c: int| 0 <= c < t.active.len() && #[trigger] elect_all(t, ws).active[c] ==> t.active[c],
    decreases ws.len(),
{
    if ws.len() > 0 {
        let ws0 = ws.drop_last();
        lemma_elect_all_count(t, ws0);
        let t1 = elect_all(t, ws0);
        let w = ws.last();
        assert(t1.active[w as int]) by {
            if !t1.active[w as int] {
                if t.active[w as int] {
                    assert(false) by {
                        lemma_elect_all_active(t, ws0, w as int);
                    }
                }
            }
        }
        lemma_count_active_update(t1.active, w as int);
        assert forall|i: int| 0 <= i < ws.len() implies !#[trigger] elect_all(t, ws).active[ws[i] as int] by {
            if i < ws.len() - 1 {
                assert(ws0[i] == ws[i]);
                assert(!t1.active[ws0[i] as int]);
            }
        }
    }
}

/// After electing `ws`, a candidate contests exactly when they did before
/// and are not among `ws`.
proof fn lemma_elect_all_active(t: Tally, ws: Seq<usize>, c: int)
    requires
        0 <= c < t.active.len(),
        forall|i: int| 0 <= i < ws.len() ==> (#[trigger] ws[i] as int) < t.active.len(),
        forall|i: int| 0 <= i < ws.len() ==> (#[trigger] ws[i] as int) != c,
    ensures
        elect_all(t, ws).active[c] == t.active[c],
        elect_all(t, ws).active.len() == t.active.len(),
    decreases ws.len(),
{
    if ws.len() > 0 {
        lemma_elect_all_active(t, ws.drop_last(), c);
    }
}

/// Handing on the surpluses of `ws` in turn leaves each of them with an
/// empty pile and takes a quota's worth of ballots each out of the piles
/// and the exhausted.
proof fn lemma_distribute_total(
    mid: Tally,
    ballots: Seq<Seq<usize>>,
    ws: Seq<usize>,
    quota: nat,
    draws: Seq<Seq<usize>>,
)
    requires
        mid.piles.len() == mid.active.len(),
        forall|i: int|
            0 <= i < ws.len() ==> {
                let w = #[trigger] ws[i] as int;
                &&& w < mid.piles.len()
                &&& !mid.active[w]
                &&& mid.piles[w].len() >= quota
            },
        forall|i: int, j: int| 0 <= i < j < ws.len() ==> #[trigger] ws[i] < #[trigger] ws[j],
    ensures
        sum_lens(distribute_surpluses(mid, ballots, ws, quota, draws).piles) + distribute_surpluses(
            mid,
            ballots,
            ws,
            quota,
            draws,
        ).exhausted + quota * ws.len() == sum_lens(mid.piles) + mid.exhausted,
        forall|i: int|
            0 <= i < ws.len() ==> (#[trigger] distribute_surpluses(mid, ballots, ws, quota, draws).piles[ws[i] as int]).len()
                == 0,
    decreases ws.len(),
{
    if ws.len() > 0 {
        let ws0 = ws.drop_last();
        let d0 = draws.drop_last();
        lemma_distribute_total(mid, ballots, ws0, quota, d0);
        lemma_distribute_frame(mid, ballots, ws0, quota, d0);
        let t1 = distribute_surpluses(mid, ballots, ws0, quota, d0);
        let w = ws.last();
        assert(!ws0.contains(w)) by {
            if ws0.contains(w) {
                let i = choose|i: int| 0 <= i < ws0.len() && ws0[i] == w;
                assert(ws[i] < ws[ws.len() - 1]);
            }
        }
        assert(t1.piles[w as int] == mid.piles[w as int]);
        let pile = t1.piles[w as int];
        let amount = (pile.len() - quota) as nat;
        let d = drawn(draws.last(), pile.len(), amount);
        assert(d.len() == amount);
        let ids = d.map_values(|i: usize| pile[i as int]);
        let t2 = Tally { piles: t1.piles.update(w as int, seq![]), ..t1 };
        lemma_sum_update(t1.piles, w as int, seq![]);
        lemma_hand_on_all_total(t2, ballots, ids);
        lemma_hand_on_all_frame(t2, ballots, ids);
        let r = distribute_surpluses(mid, ballots, ws, quota, draws);
        assert(r == hand_on_all(t2, ballots, ids));
        assert(quota * ws.len() == quota * ws0.len() + quota) by (nonlinear_arith)
            requires
                ws.len() == ws0.len() + 1,
        ;
        assert forall|i: int| 0 <= i < ws.len() implies (#[trigger] r.piles[ws[i] as int]).len() == 0 by {
            if i < ws.len() - 1 {
                assert(ws0[i] == ws[i]);
                assert(ws[i] != w);
            }
        }
    }
}

/// A round that elects keeps the count a state it can be in, and fewer
/// candidates contest after it.
proof fn lemma_elect_round_counted(t: Tally, ballots: Seq<Seq<usize>>, quota: nat, draws: Seq<Seq<usize>>)
    requires
        counted(t, ballots, quota),
        winners(t, quota).len() > 0,
    ensures
        counted(round(t, ballots, quota, draws), ballots, quota),
        count_active(round(t, ballots, quota, draws).active) < count_active(t.active),
        round(t, ballots, quota, draws).active.len() == t.active.len(),
{
    let n = t.active.len();
    let ws = winners(t, quota);
    let m = ws.len();
    let k = t.elected.len() as int;
    let dk = draws.subrange(k, k + m);
    lemma_winners(t, quota, n);
    lemma_elect_all(t, ws);
    lemma_elect_all_count(t, ws);
    let mid = elect_all(t, ws);
    assert forall|i: int| 0 <= i < m implies !mid.active[#[trigger] ws[i] as int] by {
        assert(ws.contains(ws[i]));
    }
    lemma_distribute_frame(mid, ballots, ws, quota, dk);
    lemma_distribute_total(mid, ballots, ws, quota, dk);
    let r = round(t, ballots, quota, draws);
    assert(r == distribute_surpluses(mid, ballots, ws, quota, dk));
    assert forall|c: int| 0 <= c < r.piles.len() && !r.active[c] implies #[trigger] r.piles[c].len() == 0 by {
        if ws.contains(c as usize) {
            let i = choose|i: int| 0 <= i < m && ws[i] == c as usize;
            assert(r.piles[ws[i] as int].len() == 0);
        } else {
            assert(!t.active[c]);
            assert(r.piles[c] == mid.piles[c]);
        }
    }
    assert forall|i: int| 0 <= i < r.elected.len() implies {
        let c = (#[trigger] r.elected[i]).0 as int;
        c < n && !r.active[c]
    } by {
        if i < k {
            assert(r.elected[i] == t.elected[i]) by {
                assert(mid.elected.take(k)[i] == t.elected[i]);
            }
        } else {
            assert(elect_all(t, ws).elected[t.elected.len() + (i - k)].0 == ws[i - k]);
        }
    }
    assert forall|i: int, j: int| 0 <= i < j < r.elected.len() implies (#[trigger] r.elected[i]).0
        != (#[trigger] r.elected[j]).0 by {
        if j < k {
            assert(mid.elected.take(k)[i] == t.elected[i]);
            assert(mid.elected.take(k)[j] == t.elected[j]);
        } else if i < k {
            assert(mid.elected.take(k)[i] == t.elected[i]);
            assert(elect_all(t, ws).elected[t.elected.len() + (j - k)].0 == ws[j - k]);
            assert(!t.active[t.elected[i].0 as int]);
        } else {
            assert(elect_all(t, ws).elected[t.elected.len() + (i - k)].0 == ws[i - k]);
            assert(elect_all(t, ws).elected[t.elected.len() + (j - k)].0 == ws[j - k]);
        }
    }
    assert forall|i: int, j: int|
        0 <= i < r.elected.len() && 0 <= j < r.eliminated.len() implies (#[trigger] r.elected[i]).0
            != (#[trigger] r.eliminated[j]).0 by {
        if i < k {
            assert(mid.elected.take(k)[i] == t.elected[i]);
        } else {
            assert(elect_all(t, ws).elected[t.elected.len() + (i - k)].0 == ws[i - k]);
            assert(!t.active[t.eliminated[j].0 as int]);
        }
    }
    assert forall|i: int| 0 <= i < r.eliminated.len() implies {
        let c = (#[trigger] r.eliminated[i]).0 as int;
        c < n && !r.active[c]
    } by {
        assert(r.eliminated[i] == t.eliminated[i]);
    }
    assert(quota * r.elected.len() == quota * t.elected.len() + quota * m) by (nonlinear_arith)
        requires
            r.elected.len() == t.elected.len() + m,
    ;
    assert(decided_once(r));
}

/// Every round of a count that has someone left to decide keeps it a state
/// it can be in, and takes at least one candidate out of the contest.
pub proof fn lemma_round_counted(t: Tally, ballots: Seq<Seq<usize>>, quota: nat, draws: Seq<Seq<usize>>)
    requires
        counted(t, ballots, quota),
        loser(t) is Some,
    ensures
        counted(round(t, ballots, quota, draws), ballots, quota),
        count_active(round(t, ballots, quota, draws).active) < count_active(t.active),
        round(t, ballots, quota, draws).active.len() == t.active.len(),
{
    if winners(t, quota).len() > 0 {
        lemma_elect_round_counted(t, ballots, quota, draws);
    } else {
        lemma_loser(t, t.active.len());
        let l = loser(t)->Some_0;
        lemma_eliminate_counted(t, ballots, quota, l);
    }
}

/// A count from a state it can be in ends in a state it can be in, and
/// runs out of rounds only when it was allowed fewer rounds than there are
/// candidates contesting.
pub proof fn lemma_run_counted(
    t: Tally,
    ballots: Seq<Seq<usize>>,
    quota: nat,
    seats: nat,
    draws: Seq<Seq<usize>>,
    fuel: nat,
)
    requires
        counted(t, ballots, quota),
    ensures
        match run(t, ballots, quota, seats, draws, fuel) {
            Outcome::Complete(r) => counted(r, ballots, quota) && r.elected.len() >= seats
                && r.active.len() == t.active.len(),
            Outcome::Short(r) => counted(r, ballots, quota) && r.elected.len() < seats && loser(r) is None
                && r.active.len() == t.active.len(),
            Outcome::Unfinished => fuel < count_active(t.active),
        },
    decreases fuel,
{
    if t.elected.len() < seats && loser(t) is Some && fuel > 0 {
        lemma_round_counted(t, ballots, quota, draws);
        lemma_run_counted(round(t, ballots, quota, draws), ballots, quota, seats, draws, (fuel - 1) as nat);
    }
    if t.elected.len() < seats && loser(t) is Some && fuel == 0 {
        lemma_loser(t, t.active.len());
        let l = loser(t)->Some_0;
        lemma_count_active_drops(t.active, t.active.update(l as int, false), l as int);
    }
}

/// Piles that are all empty hold nothing.
proof fn lemma_sum_empty(n: nat)
    ensures
        sum_lens(Seq::new(n, |c: int| Seq::<usize>::empty())) == 0,
    decreases n,
{
    if n > 0 {
        lemma_sum_empty((n - 1) as nat);
        assert(Seq::new(n, |c: int| Seq::<usize>::empty()).drop_last() == Seq::new(
            (n - 1) as nat,
            |c: int| Seq::<usize>::empty(),
        ));
    }
}

} // verus!
