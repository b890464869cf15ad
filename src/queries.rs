//! Read-only views of the auction: orders by user or round, per-user tallies of a round,
//! leaderboards and platform totals. Statistics are recomputed from the clearing results.
use vstd::prelude::*;
use crate::auction::{round_orders, round_result, Auction};
use crate::clearing::{side_quotes, Quote};
use crate::escrow::bytes_equal;
use crate::types::{
    copy_bytes, same_orders, ClearingResult, LeaderboardEntry, Order, OrderMatch, RoundId, UserStats,
};

verus! {

/// `x` capped at `u64::MAX`.
pub open spec fn sat(x: int) -> u64 {
    if x > u64::MAX {
        u64::MAX
    } else if x < 0 {
        0
    } else {
        x as u64
    }
}

fn sat_add(a: u64, b: u64) -> (r: u64)
    ensures
        r == sat(a + b),
{
    if u64::MAX - a < b {
        u64::MAX
    } else {
        a + b
    }
}

/// Owner of the order of match `m`, when that order belongs to round `round`. Order ids are
/// positions in the store.
pub open spec fn match_owner(orders: Seq<Order>, m: OrderMatch, round: u64) -> Option<Seq<u8>> {
    if m.order_id < orders.len() && orders[m.order_id as int].round_id == round {
        Some(orders[m.order_id as int].owner@)
    } else {
        None
    }
}

pub open spec fn owned_by(orders: Seq<Order>, m: OrderMatch, round: u64, user: Seq<u8>) -> bool {
    match_owner(orders, m, round) == Some(user)
}

/// Surplus of the matches of `user` in round `round`.
pub open spec fn user_surplus(orders: Seq<Order>, ms: Seq<OrderMatch>, round: u64, user: Seq<u8>) -> int
    decreases ms.len(),
{
    if ms.len() == 0 {
        0
    } else {
        user_surplus(orders, ms.drop_last(), round, user) + if owned_by(orders, ms.last(), round, user) {
            ms.last().surplus as int
        } else {
            0
        }
    }
}

/// Number of matches of `user` in round `round`.
pub open spec fn user_match_count(orders: Seq<Order>, ms: Seq<OrderMatch>, round: u64, user: Seq<u8>) -> int
    decreases ms.len(),
{
    if ms.len() == 0 {
        0
    } else {
        user_match_count(orders, ms.drop_last(), round, user) + if owned_by(
            orders,
            ms.last(),
            round,
            user,
        ) {
            1int
        } else {
            0
        }
    }
}

/// Number of filled matches of `user` in round `round`.
pub open spec fn user_fill_count(orders: Seq<Order>, ms: Seq<OrderMatch>, round: u64, user: Seq<u8>) -> int
    decreases ms.len(),
{
    if ms.len() == 0 {
        0
    } else {
        user_fill_count(orders, ms.drop_last(), round, user) + if owned_by(orders, ms.last(), round, user)
            && ms.last().filled {
            1int
        } else {
            0
        }
    }
}

/// `user` owns one of the matches of round `round`.
pub open spec fn is_participant(orders: Seq<Order>, ms: Seq<OrderMatch>, round: u64, user: Seq<u8>) -> bool {
    exists|k: int| 0 <= k < ms.len() && owned_by(orders, #[trigger] ms[k], round, user)
}

/// Totals of one user over the matches of a round.
pub struct Tally {
    pub user: Vec<u8>,
    pub surplus: u64,
    pub orders: u64,
    pub filled: u64,
}

pub open spec fn tally_of(t: Tally, orders: Seq<Order>, ms: Seq<OrderMatch>, round: u64) -> bool {
    &&& t.surplus == sat(user_surplus(orders, ms, round, t.user@))
    &&& t.orders == sat(user_match_count(orders, ms, round, t.user@))
    &&& t.filled == sat(user_fill_count(orders, ms, round, t.user@))
}

/// The tallies of a round: one per participant, each with that participant's totals.
pub open spec fn tallies_of(ts: Seq<Tally>, orders: Seq<Order>, ms: Seq<OrderMatch>, round: u64) -> bool {
    &&& forall|i: int, j: int| 0 <= i < j < ts.len() ==> (#[trigger] ts[i]).user@ != (#[trigger] ts[j]).user@
    &&& forall|i: int|
        0 <= i < ts.len() ==> tally_of(#[trigger] ts[i], orders, ms, round) && is_participant(
            orders,
            ms,
            round,
            ts[i].user@,
        )
    &&& forall|u: Seq<u8>|
        is_participant(orders, ms, round, u) ==> exists|i: int| 0 <= i < ts.len() && (#[trigger] ts[i]).user@ == u
}

proof fn lemma_counts_nonnegative(orders: Seq<Order>, ms: Seq<OrderMatch>, round: u64, user: Seq<u8>)
    ensures
        0 <= user_fill_count(orders, ms, round, user) <= user_match_count(orders, ms, round, user),
        0 <= user_surplus(orders, ms, round, user),
    decreases ms.len(),
{
    if ms.len() > 0 {
        lemma_counts_nonnegative(orders, ms.drop_last(), round, user);
    }
}

proof fn lemma_outsider_zero(orders: Seq<Order>, ms: Seq<OrderMatch>, round: u64, user: Seq<u8>)
    requires
        !is_participant(orders, ms, round, user),
    ensures
        user_surplus(orders, ms, round, user) == 0,
        user_match_count(orders, ms, round, user) == 0,
        user_fill_count(orders, ms, round, user) == 0,
    decreases ms.len(),
{
    if ms.len() > 0 {
        let t = ms.drop_last();
        assert(!owned_by(orders, ms[ms.len() - 1], round, user));
        assert forall|k: int| 0 <= k < t.len() implies !owned_by(orders, #[trigger] t[k], round, user) by {
            assert(t[k] == ms[k]);
        }
        lemma_outsider_zero(orders, t, round, user);
    }
}

/// Totals per participant of the matches `ms` of round `round` (see `tallies_of`).
pub fn aggregate_round(orders: &Vec<Order>, ms: &Vec<OrderMatch>, round: u64) -> (r: Vec<Tally>)
    ensures
        tallies_of(r@, orders@, ms@, round),
{
    let mut ts: Vec<Tally> = Vec::new();
    let mut k: usize = 0;
    while k < ms.len()
        invariant
            k <= ms@.len(),
            tallies_of(ts@, orders@, ms@.take(k as int), round),
        decreases ms.len() - k,
    {
        let ghost pre = ms@.take(k as int);
        let ghost post = ms@.take(k + 1);
        assert(post.drop_last() =~= pre);
        let m = ms[k];
        assert(post.last() == m);
        let id = m.order_id;
        if id < orders.len() as u64 && orders[id as usize].round_id == round {
            let owner = &orders[id as usize].owner;
            let ghost u = owner@;
            assert(owned_by(orders@, m, round, u));
            let mut i: usize = 0;
            while i < ts.len()
                invariant
                    i <= ts@.len(),
                    owner@ == u,
                    forall|j: int| 0 <= j < i ==> (#[trigger] ts@[j]).user@ != u,
                ensures
                    i <= ts@.len(),
                    forall|j: int| 0 <= j < i ==> (#[trigger] ts@[j]).user@ != u,
                    i < ts@.len() ==> ts@[i as int].user@ == u,
                decreases ts.len() - i,
            {
                if bytes_equal(&ts[i].user, owner) {
                    break;
                }
                i = i + 1;
            }
            let ghost before = ts@;
            let filled_step: u64 = if m.filled {
                1
            } else {
                0
            };
            if i < ts.len() {
                let t = &ts[i];
                let nt = Tally {
                    user: copy_bytes(&t.user),
                    surplus: sat_add(t.surplus, m.surplus),
                    orders: sat_add(t.orders, 1),
                    filled: sat_add(t.filled, filled_step),
                };
                proof {
                    lemma_counts_nonnegative(orders@, pre, round, u);
                }
                ts.set(i, nt);
            } else {
                proof {
                    assert(!is_participant(orders@, pre, round, u)) by {
                        if is_participant(orders@, pre, round, u) {
                            let j = choose|j: int| 0 <= j < before.len() && (#[trigger] before[j]).user@ == u;
                        }
                    }
                    lemma_outsider_zero(orders@, pre, round, u);
                }
                ts.push(Tally { user: copy_bytes(owner), surplus: m.surplus, orders: 1, filled: filled_step });
            }
            proof {
                assert forall|a: int, b: int| 0 <= a < b < ts@.len() implies (#[trigger] ts@[a]).user@
                    != (#[trigger] ts@[b]).user@ by {
                    if b == i as int {
                        assert(before[a].user@ != u);
                    } else if a == i as int {
                        if b < before.len() {
                            assert(before[b].user@ != u || b < i);
                            assert(before[a].user@ != before[b].user@);
                        }
                    } else {
                        assert(before[a].user@ != before[b].user@);
                    }
                }
                assert forall|j: int| 0 <= j < ts@.len() implies tally_of(#[trigger] ts@[j], orders@, post, round)
                    && is_participant(orders@, post, round, ts@[j].user@) by {
                    if j == i as int {
                        assert(post[k as int] == m);
                    } else {
                        assert(ts@[j] == before[j]);
                        let w = choose|w: int| 0 <= w < pre.len() && owned_by(orders@, #[trigger] pre[w], round, before[j].user@);
                        assert(post[w] == pre[w]);
                        if j < i {
                            assert(before[j].user@ != u);
                        } else {
                            assert(before[j].user@ != before[i as int].user@);
                        }
                    }
                }
                assert forall|v: Seq<u8>| is_participant(orders@, post, round, v) implies exists|j: int|
                    0 <= j < ts@.len() && (#[trigger] ts@[j]).user@ == v by {
                    if v == u {
                        assert(ts@[i as int].user@ == v);
                    } else {
                        let w = choose|w: int| 0 <= w < post.len() && owned_by(orders@, #[trigger] post[w], round, v);
                        assert(w < pre.len());
                        assert(pre[w] == post[w]);
                        assert(is_participant(orders@, pre, round, v));
                        let j = choose|j: int| 0 <= j < before.len() && (#[trigger] before[j]).user@ == v;
                        if j != i {
                            assert(ts@[j] == before[j]);
                        }
                    }
                }
            }
        } else {
            proof {
                assert(match_owner(orders@, m, round) is None);
                assert forall|j: int| 0 <= j < ts@.len() implies tally_of(#[trigger] ts@[j], orders@, post, round)
                    && is_participant(orders@, post, round, ts@[j].user@) by {
                    let w = choose|w: int| 0 <= w < pre.len() && owned_by(orders@, #[trigger] pre[w], round, ts@[j].user@);
                    assert(post[w] == pre[w]);
                }
                assert forall|v: Seq<u8>| is_participant(orders@, post, round, v) implies exists|j: int|
                    0 <= j < ts@.len() && (#[trigger] ts@[j]).user@ == v by {
                    let w = choose|w: int| 0 <= w < post.len() && owned_by(orders@, #[trigger] post[w], round, v);
                    assert(w < pre.len());
                    assert(pre[w] == post[w]);
                    assert(is_participant(orders@, pre, round, v));
                }
            }
        }
        k = k + 1;
    }
    assert(ms@.take(ms.len() as int) =~= ms@);
    ts
}


/// Percentage of `total` that `filled` is, rounded down; 0 when `total` is 0.
pub open spec fn fill_rate(filled: u64, total: u64) -> u64 {
    if total == 0 {
        0
    } else {
        (filled * 100 / (total as int)) as u64
    }
}

/// Best surplus first, ranks 1, 2, ... in that order, one entry per user.
pub open spec fn ranked(es: Seq<LeaderboardEntry>) -> bool {
    &&& forall|i: int| 0 <= i < es.len() ==> (#[trigger] es[i]).rank == i + 1
    &&& forall|i: int, j: int| 0 <= i < j < es.len() ==> (#[trigger] es[i]).surplus >= (#[trigger] es[j]).surplus
    &&& forall|i: int, j: int| 0 <= i < j < es.len() ==> (#[trigger] es[i]).user@ != (#[trigger] es[j]).user@
}

pub open spec fn same_entry(a: LeaderboardEntry, b: LeaderboardEntry) -> bool {
    a.user@ == b.user@ && a.surplus == b.surplus && a.fill_rate == b.fill_rate
}

/// `es` is the leaderboard of the matches `ms` of round `round`.
pub open spec fn leaderboard_of(es: Seq<LeaderboardEntry>, orders: Seq<Order>, ms: Seq<OrderMatch>, round: u64) -> bool {
    &&& ranked(es)
    &&& forall|i: int|
        0 <= i < es.len() ==> {
            let u = (#[trigger] es[i]).user@;
            &&& is_participant(orders, ms, round, u)
            &&& es[i].surplus == sat(user_surplus(orders, ms, round, u))
            &&& es[i].fill_rate == fill_rate(
                sat(user_fill_count(orders, ms, round, u)),
                sat(user_match_count(orders, ms, round, u)),
            )
        }
    &&& forall|u: Seq<u8>|
        is_participant(orders, ms, round, u) ==> exists|i: int| 0 <= i < es.len() && (#[trigger] es[i]).user@ == u
}

fn rate(filled: u64, total: u64) -> (r: u64)
    requires
        filled <= total,
    ensures
        r == fill_rate(filled, total),
{
    if total == 0 {
        0
    } else {
        assert(filled * 100 / (total as int) <= 100) by (nonlinear_arith)
            requires
                filled <= total,
                total > 0,
        ;
        ((filled as u128 * 100) / total as u128) as u64
    }
}

pub open spec fn by_surplus(es: Seq<LeaderboardEntry>) -> bool {
    forall|i: int, j: int| 0 <= i < j < es.len() ==> (#[trigger] es[i]).surplus >= (#[trigger] es[j]).surplus
}

pub open spec fn distinct_users(es: Seq<LeaderboardEntry>) -> bool {
    forall|i: int, j: int| 0 <= i < j < es.len() ==> (#[trigger] es[i]).user@ != (#[trigger] es[j]).user@
}

/// `e` placed into `s` behind every entry whose surplus is at least its own.
pub open spec fn insert_by_surplus(s: Seq<LeaderboardEntry>, e: LeaderboardEntry) -> Seq<LeaderboardEntry>
    decreases s.len(),
{
    if s.len() == 0 {
        seq![e]
    } else if s[0].surplus < e.surplus {
        seq![e] + s
    } else {
        seq![s[0]] + insert_by_surplus(s.drop_first(), e)
    }
}

/// The entries by surplus, best first; equal surpluses keep their order.
pub open spec fn sort_by_surplus(s: Seq<LeaderboardEntry>) -> Seq<LeaderboardEntry>
    decreases s.len(),
{
    if s.len() == 0 {
        s
    } else {
        insert_by_surplus(sort_by_surplus(s.drop_last()), s.last())
    }
}

proof fn lemma_insert_entry_split(s: Seq<LeaderboardEntry>, e: LeaderboardEntry, k: int)
    requires
        0 <= k <= s.len(),
        forall|j: int| 0 <= j < k ==> !((#[trigger] s[j]).surplus < e.surplus),
        k < s.len() ==> s[k].surplus < e.surplus,
    ensures
        insert_by_surplus(s, e) == s.take(k) + seq![e] + s.skip(k),
    decreases s.len(),
{
    if s.len() == 0 {
        assert(s.take(k) + seq![e] + s.skip(k) =~= seq![e]);
    } else if k == 0 {
        assert(s.take(k) + seq![e] + s.skip(k) =~= seq![e] + s);
    } else {
        let t = s.drop_first();
        assert forall|j: int| 0 <= j < k - 1 implies !((#[trigger] t[j]).surplus < e.surplus) by {
            assert(t[j] == s[j + 1]);
        }
        lemma_insert_entry_split(t, e, k - 1);
        assert(s.take(k) + seq![e] + s.skip(k) =~= seq![s[0]] + (t.take(k - 1) + seq![e] + t.skip(k - 1)));
    }
}

proof fn lemma_insert_entry_members(s: Seq<LeaderboardEntry>, e: LeaderboardEntry)
    ensures
        insert_by_surplus(s, e).len() == s.len() + 1,
        forall|i: int|
            0 <= i < s.len() + 1 ==> #[trigger] insert_by_surplus(s, e)[i] == e || exists|j: int|
                0 <= j < s.len() && insert_by_surplus(s, e)[i] == #[trigger] s[j],
    decreases s.len(),
{
    let r = insert_by_surplus(s, e);
    if s.len() == 0 {
    } else if s[0].surplus < e.surplus {
        assert forall|i: int| 0 < i < s.len() + 1 implies #[trigger] r[i] == e || exists|j: int|
            0 <= j < s.len() && r[i] == #[trigger] s[j] by {
            assert(r[i] == s[i - 1]);
        }
    } else {
        let t = s.drop_first();
        let rt = insert_by_surplus(t, e);
        lemma_insert_entry_members(t, e);
        assert(r.drop_first() =~= rt);
        assert forall|i: int| 0 <= i < s.len() + 1 implies #[trigger] r[i] == e || exists|j: int|
            0 <= j < s.len() && r[i] == #[trigger] s[j] by {
            if i > 0 {
                assert(r[i] == rt[i - 1]);
                if rt[i - 1] != e {
                    let j = choose|j: int| 0 <= j < t.len() && rt[i - 1] == #[trigger] t[j];
                    assert(t[j] == s[j + 1]);
                }
            } else {
                assert(r[0] == s[0]);
            }
        }
    }
}

proof fn lemma_insert_len(s: Seq<LeaderboardEntry>, e: LeaderboardEntry)
    ensures
        insert_by_surplus(s, e).len() == s.len() + 1,
    decreases s.len(),
{
    if s.len() > 0 && !(s[0].surplus < e.surplus) {
        lemma_insert_len(s.drop_first(), e);
    }
}

proof fn lemma_insert_entry_keeps(s: Seq<LeaderboardEntry>, e: LeaderboardEntry)
    ensures
        forall|j: int| #![trigger s[j]] 0 <= j < s.len() ==> exists|i: int| 0 <= i < s.len() + 1 && #[trigger] insert_by_surplus(s, e)[i] == s[j],
        exists|i: int| 0 <= i < s.len() + 1 && #[trigger] insert_by_surplus(s, e)[i] == e,
    decreases s.len(),
{
    let r = insert_by_surplus(s, e);
    if s.len() == 0 {
        assert(r[0] == e);
    } else if s[0].surplus < e.surplus {
        assert(r[0] == e);
        assert forall|j: int| #![trigger s[j]] 0 <= j < s.len() implies exists|i: int| 0 <= i < s.len() + 1 && #[trigger] r[i] == s[j] by {
            assert(r[j + 1] == s[j]);
        }
    } else {
        let t = s.drop_first();
        let rt = insert_by_surplus(t, e);
        lemma_insert_entry_keeps(t, e);
        lemma_insert_len(t, e);
        assert(r.drop_first() =~= rt);
        assert forall|j: int| #![trigger s[j]] 0 <= j < s.len() implies exists|i: int| 0 <= i < s.len() + 1 && #[trigger] r[i] == s[j] by {
            if j > 0 {
                assert(s[j] == t[j - 1]);
                let i = choose|i: int| 0 <= i < t.len() + 1 && #[trigger] rt[i] == t[j - 1];
                assert(r[i + 1] == rt[i]);
            } else {
                assert(r[0] == s[0]);
            }
        }
        let w = choose|i: int| 0 <= i < t.len() + 1 && #[trigger] rt[i] == e;
        assert(r[w + 1] == e);
    }
}

proof fn lemma_insert_entry_sorted(s: Seq<LeaderboardEntry>, e: LeaderboardEntry)
    requires
        by_surplus(s),
    ensures
        by_surplus(insert_by_surplus(s, e)),
    decreases s.len(),
{
    let r = insert_by_surplus(s, e);
    if s.len() == 0 {
    } else if s[0].surplus < e.surplus {
        assert forall|a: int, b: int| 0 <= a < b < r.len() implies (#[trigger] r[a]).surplus >= (#[trigger] r[b]).surplus by {
            assert(r[b] == s[b - 1]);
            if a > 0 {
                assert(r[a] == s[a - 1]);
            } else if b - 1 > 0 {
                assert(s[0].surplus >= s[b - 1].surplus);
            }
        }
    } else {
        let t = s.drop_first();
        let rt = insert_by_surplus(t, e);
        assert forall|a: int, b: int| 0 <= a < b < t.len() implies (#[trigger] t[a]).surplus >= (#[trigger] t[b]).surplus by {
            assert(s[a + 1].surplus >= s[b + 1].surplus);
        }
        lemma_insert_entry_sorted(t, e);
        lemma_insert_entry_members(t, e);
        assert(r.drop_first() =~= rt);
        assert forall|a: int, b: int| 0 <= a < b < r.len() implies (#[trigger] r[a]).surplus >= (#[trigger] r[b]).surplus by {
            assert(r[b] == rt[b - 1]);
            if a > 0 {
                assert(r[a] == rt[a - 1]);
            } else {
                assert(r[0] == s[0]);
                if rt[b - 1] != e {
                    let j = choose|j: int| 0 <= j < t.len() && rt[b - 1] == #[trigger] t[j];
                    assert(s[0].surplus >= s[j + 1].surplus);
                }
            }
        }
    }
}

proof fn lemma_sort_members(s: Seq<LeaderboardEntry>)
    ensures
        sort_by_surplus(s).len() == s.len(),
        forall|i: int| 0 <= i < s.len() ==> exists|j: int| 0 <= j < s.len() && #[trigger] sort_by_surplus(s)[i] == s[j],
        forall|j: int| #![trigger s[j]] 0 <= j < s.len() ==> exists|i: int| 0 <= i < s.len() && #[trigger] sort_by_surplus(s)[i] == s[j],
    decreases s.len(),
{
    if s.len() > 0 {
        let t = s.drop_last();
        let st = sort_by_surplus(t);
        let e = s.last();
        lemma_sort_members(t);
        lemma_insert_entry_members(st, e);
        lemma_insert_entry_keeps(st, e);
        let r = sort_by_surplus(s);
        assert forall|i: int| 0 <= i < s.len() implies exists|j: int| 0 <= j < s.len() && #[trigger] r[i] == s[j] by {
            if r[i] == e {
                assert(s[s.len() - 1] == e);
            } else {
                let k = choose|k: int| 0 <= k < st.len() && r[i] == #[trigger] st[k];
                let j = choose|j: int| 0 <= j < t.len() && #[trigger] st[k] == t[j];
                assert(t[j] == s[j]);
            }
        }
        assert forall|j: int| #![trigger s[j]] 0 <= j < s.len() implies exists|i: int| 0 <= i < s.len() && #[trigger] r[i] == s[j] by {
            if j == s.len() - 1 {
                let i = choose|i: int| 0 <= i < st.len() + 1 && #[trigger] r[i] == e;
            } else {
                assert(s[j] == t[j]);
                let k = choose|k: int| 0 <= k < t.len() && #[trigger] st[k] == t[j];
                let i = choose|i: int| 0 <= i < st.len() + 1 && #[trigger] r[i] == st[k];
            }
        }
    }
}

proof fn lemma_sort_sorted(s: Seq<LeaderboardEntry>)
    ensures
        by_surplus(sort_by_surplus(s)),
    decreases s.len(),
{
    if s.len() > 0 {
        lemma_sort_sorted(s.drop_last());
        lemma_insert_entry_sorted(sort_by_surplus(s.drop_last()), s.last());
    }
}

proof fn lemma_sort_distinct(s: Seq<LeaderboardEntry>)
    requires
        distinct_users(s),
    ensures
        distinct_users(sort_by_surplus(s)),
    decreases s.len(),
{
    if s.len() > 0 {
        let t = s.drop_last();
        let st = sort_by_surplus(t);
        let e = s.last();
        assert forall|a: int, b: int| 0 <= a < b < t.len() implies (#[trigger] t[a]).user@ != (#[trigger] t[b]).user@ by {
            assert(s[a].user@ != s[b].user@);
        }
        lemma_sort_distinct(t);
        lemma_sort_members(t);
        assert forall|i: int| 0 <= i < st.len() implies (#[trigger] st[i]).user@ != e.user@ by {
            let j = choose|j: int| 0 <= j < t.len() && #[trigger] st[i] == t[j];
            assert(s[j].user@ != s[s.len() - 1].user@);
        }
        lemma_insert_keeps_distinct(st, e);
    }
}

proof fn lemma_insert_keeps_distinct(s: Seq<LeaderboardEntry>, e: LeaderboardEntry)
    requires
        distinct_users(s),
        forall|i: int| 0 <= i < s.len() ==> (#[trigger] s[i]).user@ != e.user@,
    ensures
        distinct_users(insert_by_surplus(s, e)),
    decreases s.len(),
{
    let r = insert_by_surplus(s, e);
    if s.len() == 0 {
    } else if s[0].surplus < e.surplus {
        assert forall|a: int, b: int| 0 <= a < b < r.len() implies (#[trigger] r[a]).user@ != (#[trigger] r[b]).user@ by {
            assert(r[b] == s[b - 1]);
            if a > 0 {
                assert(r[a] == s[a - 1]);
            }
        }
    } else {
        let t = s.drop_first();
        assert forall|a: int, b: int| 0 <= a < b < t.len() implies (#[trigger] t[a]).user@ != (#[trigger] t[b]).user@ by {
            assert(s[a + 1].user@ != s[b + 1].user@);
        }
        assert forall|i: int| 0 <= i < t.len() implies (#[trigger] t[i]).user@ != e.user@ by {
            assert(t[i] == s[i + 1]);
        }
        lemma_insert_keeps_distinct(t, e);
        lemma_insert_entry_members(t, e);
        let rt = insert_by_surplus(t, e);
        assert(r.drop_first() =~= rt);
        assert forall|a: int, b: int| 0 <= a < b < r.len() implies (#[trigger] r[a]).user@ != (#[trigger] r[b]).user@ by {
            assert(r[b] == rt[b - 1]);
            if a > 0 {
                assert(r[a] == rt[a - 1]);
            } else {
                if rt[b - 1] != e {
                    let j = choose|j: int| 0 <= j < t.len() && rt[b - 1] == #[trigger] t[j];
                    assert(s[0].user@ != s[j + 1].user@);
                } else {
                    assert(s[0].user@ != e.user@);
                }
            }
        }
    }
}

/// Numbers the entries 1, 2, ... in their order.
fn number_entries(sorted: &Vec<LeaderboardEntry>) -> (r: Vec<LeaderboardEntry>)
    ensures
        r@.len() == sorted@.len(),
        forall|a: int| 0 <= a < r@.len() ==> same_entry(#[trigger] r@[a], sorted@[a]) && r@[a].rank == a + 1,
{
    let mut out: Vec<LeaderboardEntry> = Vec::new();
    let mut i: usize = 0;
    while i < sorted.len()
        invariant
            i <= sorted@.len(),
            out@.len() == i,
            forall|a: int| 0 <= a < i ==> same_entry(#[trigger] out@[a], sorted@[a]) && out@[a].rank == a + 1,
        decreases sorted.len() - i,
    {
        let e = &sorted[i];
        out.push(LeaderboardEntry { user: copy_bytes(&e.user), surplus: e.surplus, fill_rate: e.fill_rate, rank: (i + 1) as u64 });
        i = i + 1;
    }
    out
}

/// Places `e` into `sorted` at its place (see `insert_by_surplus`).
fn insert_entry(sorted: &mut Vec<LeaderboardEntry>, e: LeaderboardEntry)
    ensures
        final(sorted)@ == insert_by_surplus(old(sorted)@, e),
{
    let mut k: usize = 0;
    while k < sorted.len()
        invariant
            k <= sorted@.len(),
            sorted@ == old(sorted)@,
            forall|j: int| 0 <= j < k ==> !((#[trigger] sorted@[j]).surplus < e.surplus),
        ensures
            k <= sorted@.len(),
            sorted@ == old(sorted)@,
            forall|j: int| 0 <= j < k ==> !((#[trigger] sorted@[j]).surplus < e.surplus),
            k < sorted@.len() ==> sorted@[k as int].surplus < e.surplus,
        decreases sorted.len() - k,
    {
        if sorted[k].surplus < e.surplus {
            break;
        }
        k = k + 1;
    }
    proof {
        lemma_insert_entry_split(sorted@, e, k as int);
    }
    sorted.insert(k, e);
    assert(sorted@ =~= old(sorted)@.take(k as int) + seq![e] + old(sorted)@.skip(k as int));
}

/// Leaderboard of the matches `ms` of round `round` (see `leaderboard_of`).
pub fn leaderboard_for(orders: &Vec<Order>, ms: &Vec<OrderMatch>, round: u64) -> (r: Vec<LeaderboardEntry>)
    ensures
        leaderboard_of(r@, orders@, ms@, round),
{
    let ts = aggregate_round(orders, ms, round);
    let mut sorted: Vec<LeaderboardEntry> = Vec::new();
    let ghost mut entries: Seq<LeaderboardEntry> = Seq::empty();
    let mut i: usize = 0;
    while i < ts.len()
        invariant
            i <= ts@.len(),
            tallies_of(ts@, orders@, ms@, round),
            entries.len() == i,
            sorted@ == sort_by_surplus(entries),
            forall|a: int| 0 <= a < i ==> {
                let t = ts@[a];
                &&& (#[trigger] entries[a]).user@ == t.user@
                &&& entries[a].surplus == t.surplus
                &&& entries[a].fill_rate == fill_rate(t.filled, t.orders)
            },
        decreases ts.len() - i,
    {
        let t = &ts[i];
        proof {
            lemma_counts_nonnegative(orders@, ms@, round, t.user@);
        }
        let fr = rate(t.filled, t.orders);
        let e = LeaderboardEntry { user: copy_bytes(&t.user), surplus: t.surplus, fill_rate: fr, rank: 0 };
        proof {
            assert(entries.push(e).drop_last() =~= entries);
            entries = entries.push(e);
        }
        insert_entry(&mut sorted, e);
        i = i + 1;
    }
    proof {
        assert forall|a: int, b: int| 0 <= a < b < entries.len() implies (#[trigger] entries[a]).user@ != (#[trigger] entries[b]).user@ by {
            assert(ts@[a].user@ != ts@[b].user@);
        }
        lemma_sort_members(entries);
        lemma_sort_sorted(entries);
        lemma_sort_distinct(entries);
    }
    let r = number_entries(&sorted);
    assert forall|a: int, b: int| 0 <= a < b < r@.len() implies (#[trigger] r@[a]).surplus >= (#[trigger] r@[b]).surplus by {
        assert(sorted@[a].surplus >= sorted@[b].surplus);
    }
    assert forall|a: int, b: int| 0 <= a < b < r@.len() implies (#[trigger] r@[a]).user@ != (#[trigger] r@[b]).user@ by {
        assert(sorted@[a].user@ != sorted@[b].user@);
    }
    assert forall|a: int| 0 <= a < r@.len() implies {
        let u = (#[trigger] r@[a]).user@;
        &&& is_participant(orders@, ms@, round, u)
        &&& r@[a].surplus == sat(user_surplus(orders@, ms@, round, u))
        &&& r@[a].fill_rate == fill_rate(
            sat(user_fill_count(orders@, ms@, round, u)),
            sat(user_match_count(orders@, ms@, round, u)),
        )
    } by {
        let j = choose|j: int| 0 <= j < entries.len() && #[trigger] sorted@[a] == entries[j];
        assert(tally_of(ts@[j], orders@, ms@, round));
    }
    assert forall|u: Seq<u8>| is_participant(orders@, ms@, round, u) implies exists|a: int| 0 <= a < r@.len() && (#[trigger] r@[a]).user@ == u by {
        let j = choose|j: int| 0 <= j < ts@.len() && (#[trigger] ts@[j]).user@ == u;
        let a = choose|a: int| 0 <= a < entries.len() && #[trigger] sorted@[a] == entries[j];
        assert(r@[a].user@ == u);
    }
    r
}


/// Surplus of `user` over all the results `rs`.
pub open spec fn surplus_over(orders: Seq<Order>, rs: Seq<ClearingResult>, user: Seq<u8>) -> int
    decreases rs.len(),
{
    if rs.len() == 0 {
        0
    } else {
        surplus_over(orders, rs.drop_last(), user) + user_surplus(orders, rs.last().matches@, rs.last().round_id, user)
    }
}

/// Number of matches of `user` over all the results `rs`.
pub open spec fn matches_over(orders: Seq<Order>, rs: Seq<ClearingResult>, user: Seq<u8>) -> int
    decreases rs.len(),
{
    if rs.len() == 0 {
        0
    } else {
        matches_over(orders, rs.drop_last(), user) + user_match_count(orders, rs.last().matches@, rs.last().round_id, user)
    }
}

/// Number of filled matches of `user` over all the results `rs`.
pub open spec fn fills_over(orders: Seq<Order>, rs: Seq<ClearingResult>, user: Seq<u8>) -> int
    decreases rs.len(),
{
    if rs.len() == 0 {
        0
    } else {
        fills_over(orders, rs.drop_last(), user) + user_fill_count(orders, rs.last().matches@, rs.last().round_id, user)
    }
}

/// Number of the results `rs` in which `user` took part.
pub open spec fn rounds_over(orders: Seq<Order>, rs: Seq<ClearingResult>, user: Seq<u8>) -> int
    decreases rs.len(),
{
    if rs.len() == 0 {
        0
    } else {
        rounds_over(orders, rs.drop_last(), user) + if is_participant(
            orders,
            rs.last().matches@,
            rs.last().round_id,
            user,
        ) {
            1int
        } else {
            0
        }
    }
}

pub open spec fn participant_over(orders: Seq<Order>, rs: Seq<ClearingResult>, user: Seq<u8>) -> bool {
    exists|k: int| 0 <= k < rs.len() && is_participant(orders, (#[trigger] rs[k]).matches@, rs[k].round_id, user)
}

/// The statistics of `user` over the results `rs`.
pub open spec fn stat_of(st: UserStats, orders: Seq<Order>, rs: Seq<ClearingResult>) -> bool {
    let u = st.user@;
    &&& st.total_orders == sat(matches_over(orders, rs, u))
    &&& st.filled_orders == sat(fills_over(orders, rs, u))
    &&& st.total_surplus == sat(surplus_over(orders, rs, u))
    &&& st.rounds_participated == sat(rounds_over(orders, rs, u))
}

/// `ss` holds one entry per user who took part in one of the results `rs`, with that
/// user's statistics.
pub open spec fn stats_of(ss: Seq<UserStats>, orders: Seq<Order>, rs: Seq<ClearingResult>) -> bool {
    &&& forall|i: int, j: int| 0 <= i < j < ss.len() ==> (#[trigger] ss[i]).user@ != (#[trigger] ss[j]).user@
    &&& forall|i: int|
        0 <= i < ss.len() ==> stat_of(#[trigger] ss[i], orders, rs) && participant_over(orders, rs, ss[i].user@)
    &&& forall|u: Seq<u8>|
        participant_over(orders, rs, u) ==> exists|i: int| 0 <= i < ss.len() && (#[trigger] ss[i]).user@ == u
}

proof fn lemma_over_nonnegative(orders: Seq<Order>, rs: Seq<ClearingResult>, user: Seq<u8>)
    ensures
        0 <= fills_over(orders, rs, user) <= matches_over(orders, rs, user),
        0 <= surplus_over(orders, rs, user),
        0 <= rounds_over(orders, rs, user),
        !participant_over(orders, rs, user) ==> matches_over(orders, rs, user) == 0 && fills_over(
            orders,
            rs,
            user,
        ) == 0 && surplus_over(orders, rs, user) == 0 && rounds_over(orders, rs, user) == 0,
    decreases rs.len(),
{
    if rs.len() > 0 {
        let t = rs.drop_last();
        lemma_over_nonnegative(orders, t, user);
        lemma_counts_nonnegative(orders, rs.last().matches@, rs.last().round_id, user);
        if !participant_over(orders, rs, user) {
            assert(!is_participant(orders, rs[rs.len() - 1].matches@, rs[rs.len() - 1].round_id, user));
            lemma_outsider_zero(orders, rs.last().matches@, rs.last().round_id, user);
            assert forall|k: int| 0 <= k < t.len() implies !is_participant(orders, (#[trigger] t[k]).matches@, t[k].round_id, user) by {
                assert(t[k] == rs[k]);
            }
        }
    }
}

/// Adds the matches of `result` to the statistics `stats` of the results `rs`.
fn update_user_stats(stats: &mut Vec<UserStats>, orders: &Vec<Order>, result: &ClearingResult, Ghost(rs): Ghost<Seq<ClearingResult>>)
    requires
        stats_of(old(stats)@, orders@, rs),
    ensures
        stats_of(final(stats)@, orders@, rs.push(*result)),
{
    let ghost rs2 = rs.push(*result);
    let ghost ms = result.matches@;
    let ghost round = result.round_id;
    assert(rs2.drop_last() =~= rs);
    let ts = aggregate_round(orders, &result.matches, result.round_id);
    let ghost old_stats = stats@;
    let mut j: usize = 0;
    while j < ts.len()
        invariant
            j <= ts@.len(),
            rs2 == rs.push(*result),
            rs2.drop_last() == rs,
            ms == result.matches@,
            round == result.round_id,
            tallies_of(ts@, orders@, ms, round),
            stats_of(old_stats, orders@, rs),
            stats@.len() >= old_stats.len(),
            forall|a: int, b: int| 0 <= a < b < stats@.len() ==> (#[trigger] stats@[a]).user@ != (#[trigger] stats@[b]).user@,
            forall|i: int|
                0 <= i < stats@.len() ==> {
                    let u = (#[trigger] stats@[i]).user@;
                    let done = exists|a: int| 0 <= a < j && (#[trigger] ts@[a]).user@ == u;
                    &&& (done ==> stat_of(stats@[i], orders@, rs2) && participant_over(orders@, rs2, u))
                    &&& (!done ==> i < old_stats.len() && stats@[i] == old_stats[i])
                },
            forall|a: int| 0 <= a < j ==> exists|i: int| 0 <= i < stats@.len() && (#[trigger] stats@[i]).user@ == (#[trigger] ts@[a]).user@,
            forall|i: int| 0 <= i < old_stats.len() ==> (#[trigger] stats@[i]).user@ == old_stats[i].user@,
        decreases ts.len() - j,
    {
        let t = &ts[j];
        let ghost u = t.user@;
        assert(tally_of(ts@[j as int], orders@, ms, round));
        assert(is_participant(orders@, ms, round, u));
        proof {
            lemma_over_nonnegative(orders@, rs, u);
            lemma_counts_nonnegative(orders@, ms, round, u);
            assert(participant_over(orders@, rs2, u)) by {
                assert(rs2[rs.len() as int] == *result);
            }
        }
        let mut i: usize = 0;
        while i < stats.len()
            invariant
                i <= stats@.len(),
                t.user@ == u,
                forall|b: int| 0 <= b < i ==> (#[trigger] stats@[b]).user@ != u,
            ensures
                i <= stats@.len(),
                forall|b: int| 0 <= b < i ==> (#[trigger] stats@[b]).user@ != u,
                i < stats@.len() ==> stats@[i as int].user@ == u,
            decreases stats.len() - i,
        {
            if bytes_equal(&stats[i].user, &t.user) {
                break;
            }
            i = i + 1;
        }
        let ghost before = stats@;
        if i < stats.len() {
            let st = &stats[i];
            proof {
                // `u` has not been merged yet, so this entry is still the one for `rs`
                assert forall|a: int| 0 <= a < j implies (#[trigger] ts@[a]).user@ != u by {
                    assert(ts@[a].user@ != ts@[j as int].user@);
                }
                assert(i < old_stats.len() && before[i as int] == old_stats[i as int]);
                assert(stat_of(old_stats[i as int], orders@, rs));
            }
            let ns = UserStats {
                user: copy_bytes(&st.user),
                total_orders: sat_add(st.total_orders, t.orders),
                filled_orders: sat_add(st.filled_orders, t.filled),
                total_surplus: sat_add(st.total_surplus, t.surplus),
                rounds_participated: sat_add(st.rounds_participated, 1),
            };
            stats.set(i, ns);
        } else {
            proof {
                assert(!participant_over(orders@, rs, u)) by {
                    if participant_over(orders@, rs, u) {
                        let b = choose|b: int| 0 <= b < old_stats.len() && (#[trigger] old_stats[b]).user@ == u;
                        assert(stats@[b].user@ == u);
                    }
                }
            }
            stats.push(UserStats {
                user: copy_bytes(&t.user),
                total_orders: t.orders,
                filled_orders: t.filled,
                total_surplus: t.surplus,
                rounds_participated: 1,
            });
        }
        proof {
            assert forall|a: int, b: int| 0 <= a < b < stats@.len() implies (#[trigger] stats@[a]).user@ != (#[trigger] stats@[b]).user@ by {
                if a != i && b != i {
                    assert(stats@[a] == before[a] && stats@[b] == before[b]);
                } else if a == i {
                    if b < before.len() {
                        assert(stats@[b] == before[b]);
                        assert(before[a].user@ != before[b].user@);
                    }
                } else {
                    assert(stats@[a] == before[a]);
                    if i < before.len() {
                        assert(before[a].user@ != before[b].user@);
                    }
                }
            }
            assert forall|k: int| 0 <= k < stats@.len() implies {
                let v = (#[trigger] stats@[k]).user@;
                let done = exists|a: int| 0 <= a < j + 1 && (#[trigger] ts@[a]).user@ == v;
                &&& (done ==> stat_of(stats@[k], orders@, rs2) && participant_over(orders@, rs2, v))
                &&& (!done ==> k < old_stats.len() && stats@[k] == old_stats[k])
            } by {
                if k == i {
                    assert(ts@[j as int].user@ == stats@[k].user@);
                } else {
                    assert(stats@[k] == before[k]);
                    let v = stats@[k].user@;
                    assert(v != u);
                    if exists|a: int| 0 <= a < j + 1 && (#[trigger] ts@[a]).user@ == v {
                        let a = choose|a: int| 0 <= a < j + 1 && (#[trigger] ts@[a]).user@ == v;
                        assert(a < j);
                    }
                }
            }
            assert forall|a: int| 0 <= a < j + 1 implies exists|k: int| 0 <= k < stats@.len() && (#[trigger] stats@[k]).user@ == (#[trigger] ts@[a]).user@ by {
                if a == j {
                    assert(stats@[i as int].user@ == u);
                } else {
                    let k = choose|k: int| 0 <= k < before.len() && (#[trigger] before[k]).user@ == ts@[a].user@;
                    if k != i {
                        assert(stats@[k] == before[k]);
                    }
                }
            }
        }
        j = j + 1;
    }
    proof {
        assert forall|k: int| 0 <= k < stats@.len() implies stat_of(#[trigger] stats@[k], orders@, rs2) && participant_over(orders@, rs2, stats@[k].user@) by {
            let v = stats@[k].user@;
            if !exists|a: int| 0 <= a < ts@.len() && (#[trigger] ts@[a]).user@ == v {
                assert(stats@[k] == old_stats[k]);
                assert(stat_of(old_stats[k], orders@, rs) && participant_over(orders@, rs, v));
                assert(!is_participant(orders@, ms, round, v));
                lemma_outsider_zero(orders@, ms, round, v);
                let w = choose|w: int| 0 <= w < rs.len() && is_participant(orders@, (#[trigger] rs[w]).matches@, rs[w].round_id, v);
                assert(rs2[w] == rs[w]);
            }
        }
        assert forall|v: Seq<u8>| participant_over(orders@, rs2, v) implies exists|k: int| 0 <= k < stats@.len() && (#[trigger] stats@[k]).user@ == v by {
            let w = choose|w: int| 0 <= w < rs2.len() && is_participant(orders@, (#[trigger] rs2[w]).matches@, rs2[w].round_id, v);
            if w == rs.len() {
                let a = choose|a: int| 0 <= a < ts@.len() && (#[trigger] ts@[a]).user@ == v;
                let k = choose|k: int| 0 <= k < stats@.len() && (#[trigger] stats@[k]).user@ == ts@[a].user@;
            } else {
                assert(rs2[w] == rs[w]);
                assert(participant_over(orders@, rs, v));
                let b = choose|b: int| 0 <= b < old_stats.len() && (#[trigger] old_stats[b]).user@ == v;
                assert(stats@[b].user@ == v);
            }
        }
    }
}

/// Leaderboard over all the results `rs`: best total surplus first.
pub open spec fn global_leaderboard_of(es: Seq<LeaderboardEntry>, orders: Seq<Order>, rs: Seq<ClearingResult>) -> bool {
    &&& ranked(es)
    &&& forall|i: int| 0 <= i < es.len() ==> global_entry(#[trigger] es[i], orders, rs)
    &&& forall|u: Seq<u8>|
        participant_over(orders, rs, u) ==> exists|i: int| 0 <= i < es.len() && (#[trigger] es[i]).user@ == u
}

/// `e` holds the totals of its user over all the results `rs`.
pub open spec fn global_entry(e: LeaderboardEntry, orders: Seq<Order>, rs: Seq<ClearingResult>) -> bool {
    let u = e.user@;
    &&& participant_over(orders, rs, u)
    &&& e.surplus == sat(surplus_over(orders, rs, u))
    &&& e.fill_rate == fill_rate(sat(fills_over(orders, rs, u)), sat(matches_over(orders, rs, u)))
}

/// Orders of `user`, in submission order.
pub open spec fn owned_orders(s: Seq<Order>, user: Seq<u8>) -> Seq<Order>
    decreases s.len(),
{
    if s.len() == 0 {
        s
    } else {
        let rest = owned_orders(s.drop_last(), user);
        if s.last().owner@ == user {
            rest.push(s.last())
        } else {
            rest
        }
    }
}

/// Sum of the amounts of a sequence of quotes.
pub open spec fn total_amount(qs: Seq<Quote>) -> int
    decreases qs.len(),
{
    if qs.len() == 0 {
        0
    } else {
        total_amount(qs.drop_last()) + qs.last().amount
    }
}

/// Sum of the volumes of the results `rs`.
pub open spec fn volume_over(rs: Seq<ClearingResult>) -> int
    decreases rs.len(),
{
    if rs.len() == 0 {
        0
    } else {
        volume_over(rs.drop_last()) + rs.last().total_volume
    }
}

/// Sum of the surplus of the results `rs`.
pub open spec fn result_surplus_over(rs: Seq<ClearingResult>) -> int
    decreases rs.len(),
{
    if rs.len() == 0 {
        0
    } else {
        result_surplus_over(rs.drop_last()) + rs.last().total_surplus
    }
}

/// Order counts and volumes of one round, without identities.
#[derive(Clone, Copy, Debug, PartialEq, Eq, Structural)]
pub struct OrderBookSummary {
    pub round_id: RoundId,
    pub buy_orders: u64,
    pub sell_orders: u64,
    pub total_buy_volume: u64,
    pub total_sell_volume: u64,
}

/// Totals over the life of the platform.
#[derive(Clone, Copy, Debug, PartialEq, Eq, Structural)]
pub struct PlatformStats {
    pub total_orders: u64,
    pub total_rounds: u64,
    pub total_users: u64,
    pub total_volume: u64,
    pub total_surplus: u64,
}

proof fn lemma_sat_step(a: int, x: int)
    requires
        a >= 0,
        x >= 0,
    ensures
        sat(sat(a) + x) == sat(a + x),
{
}

impl Auction {
    /// Statistics of every user who took part in a cleared round.
    pub fn all_user_stats(&self) -> (r: Vec<UserStats>)
        ensures
            stats_of(r@, self.orders(), self.results()),
    {
        let orders = self.orders_ref();
        let results = self.results_ref();
        let mut stats: Vec<UserStats> = Vec::new();
        let mut k: usize = 0;
        while k < results.len()
            invariant
                k <= results@.len(),
                orders@ == self.orders(),
                results@ == self.results(),
                stats_of(stats@, orders@, results@.take(k as int)),
            decreases results.len() - k,
        {
            assert(results@.take(k as int).push(results@[k as int]) =~= results@.take(k + 1));
            update_user_stats(&mut stats, orders, &results[k], Ghost(results@.take(k as int)));
            k = k + 1;
        }
        assert(results@.take(results.len() as int) =~= results@);
        stats
    }

    /// Statistics of `user` over every cleared round; `None` if the user took part in none.
    pub fn get_user_stats(&self, user: &Vec<u8>) -> (r: Option<UserStats>)
        ensures
            match r {
                Some(st) => st.user@ == user@ && stat_of(st, self.orders(), self.results())
                    && participant_over(self.orders(), self.results(), user@),
                None => !participant_over(self.orders(), self.results(), user@),
            },
    {
        let mut stats = self.all_user_stats();
        let mut i: usize = 0;
        while i < stats.len()
            invariant
                i <= stats@.len(),
                stats_of(stats@, self.orders(), self.results()),
                forall|b: int| 0 <= b < i ==> (#[trigger] stats@[b]).user@ != user@,
            decreases stats.len() - i,
        {
            if bytes_equal(&stats[i].user, user) {
                let st = stats.remove(i);
                return Some(st);
            }
            i = i + 1;
        }
        None
    }

    /// Leaderboard over every cleared round (see `global_leaderboard_of`).
    pub fn get_global_leaderboard(&self) -> (r: Vec<LeaderboardEntry>)
        ensures
            global_leaderboard_of(r@, self.orders(), self.results()),
    {
        let ghost orders = self.orders();
        let ghost rs = self.results();
        let stats = self.all_user_stats();
        let mut sorted: Vec<LeaderboardEntry> = Vec::new();
        let ghost mut entries: Seq<LeaderboardEntry> = Seq::empty();
        let mut i: usize = 0;
        while i < stats.len()
            invariant
                i <= stats@.len(),
                orders == self.orders(),
                rs == self.results(),
                stats_of(stats@, orders, rs),
                entries.len() == i,
                sorted@ == sort_by_surplus(entries),
                forall|a: int| 0 <= a < i ==> {
                    let st = stats@[a];
                    &&& (#[trigger] entries[a]).user@ == st.user@
                    &&& entries[a].surplus == st.total_surplus
                    &&& entries[a].fill_rate == fill_rate(st.filled_orders, st.total_orders)
                },
            decreases stats.len() - i,
        {
            let st = &stats[i];
            proof {
                lemma_over_nonnegative(orders, rs, st.user@);
            }
            let fr = rate(st.filled_orders, st.total_orders);
            let e = LeaderboardEntry { user: copy_bytes(&st.user), surplus: st.total_surplus, fill_rate: fr, rank: 0 };
            proof {
                assert(entries.push(e).drop_last() =~= entries);
                entries = entries.push(e);
            }
            insert_entry(&mut sorted, e);
            i = i + 1;
        }
        proof {
            assert forall|a: int, b: int| 0 <= a < b < entries.len() implies (#[trigger] entries[a]).user@ != (#[trigger] entries[b]).user@ by {
                assert(stats@[a].user@ != stats@[b].user@);
            }
            lemma_sort_members(entries);
            lemma_sort_sorted(entries);
            lemma_sort_distinct(entries);
        }
        let r = number_entries(&sorted);
        assert forall|a: int, b: int| 0 <= a < b < r@.len() implies (#[trigger] r@[a]).surplus >= (#[trigger] r@[b]).surplus by {
            assert(sorted@[a].surplus >= sorted@[b].surplus);
        }
        assert forall|a: int, b: int| 0 <= a < b < r@.len() implies (#[trigger] r@[a]).user@ != (#[trigger] r@[b]).user@ by {
            assert(sorted@[a].user@ != sorted@[b].user@);
        }
        assert forall|a: int| 0 <= a < r@.len() implies global_entry(#[trigger] r@[a], orders, rs) by {
            let j = choose|j: int| 0 <= j < entries.len() && #[trigger] sorted@[a] == entries[j];
            assert(stat_of(stats@[j], orders, rs));
        }
        assert forall|u: Seq<u8>| participant_over(orders, rs, u) implies exists|a: int| 0 <= a < r@.len() && (#[trigger] r@[a]).user@ == u by {
            let j = choose|j: int| 0 <= j < stats@.len() && (#[trigger] stats@[j]).user@ == u;
            let a = choose|a: int| 0 <= a < entries.len() && #[trigger] sorted@[a] == entries[j];
            assert(r@[a].user@ == u);
        }
        r
    }

    /// The first `count` lines of the global leaderboard: every user left out has no more
    /// surplus than the last one kept.
    pub fn get_top_players(&self, count: usize) -> (r: Vec<LeaderboardEntry>)
        ensures
            ranked(r@),
            r@.len() <= count,
            forall|i: int| 0 <= i < r@.len() ==> global_entry(#[trigger] r@[i], self.orders(), self.results()),
            forall|u: Seq<u8>|
                participant_over(self.orders(), self.results(), u) && (forall|i: int| 0 <= i < r@.len() ==> (#[trigger] r@[i]).user@ != u)
                    ==> r@.len() == count && (count > 0 ==> sat(surplus_over(self.orders(), self.results(), u)) <= r@[count - 1].surplus),
    {
        let mut board = self.get_global_leaderboard();
        let ghost full = board@;
        if count < board.len() {
            board.truncate(count);
        }
        assert(board@ =~= full.take(board@.len() as int));
        assert forall|u: Seq<u8>|
            participant_over(self.orders(), self.results(), u) && (forall|i: int| 0 <= i < board@.len() ==> (#[trigger] board@[i]).user@ != u)
                implies board@.len() == count && (count > 0 ==> sat(surplus_over(self.orders(), self.results(), u)) <= board@[count - 1].surplus) by {
            let a = choose|a: int| 0 <= a < full.len() && (#[trigger] full[a]).user@ == u;
            assert(global_entry(full[a], self.orders(), self.results()));
            if a < board@.len() {
                assert(board@[a] == full[a]);
                assert(false);
            }
            if count > 0 {
                assert(board@[count - 1] == full[count - 1]);
                assert(full[count - 1].surplus >= full[a].surplus);
            }
        }
        board
    }

    /// Leaderboard of round `round_id`; empty if the round has no result.
    pub fn get_round_leaderboard(&self, round_id: RoundId) -> (r: Vec<LeaderboardEntry>)
        ensures
            match round_result(self.results(), round_id) {
                None => r@.len() == 0,
                Some(res) => leaderboard_of(r@, self.orders(), res.matches@, round_id),
            },
    {
        match self.get_round_result(round_id) {
            None => Vec::new(),
            Some(res) => leaderboard_for(self.orders_ref(), &res.matches, round_id),
        }
    }

    /// Surplus of `user` in round `round_id`, capped at `u64::MAX`; 0 if the round has no result.
    pub fn get_user_round_surplus(&self, user: &Vec<u8>, round_id: RoundId) -> (r: u64)
        ensures
            r == match round_result(self.results(), round_id) {
                None => 0,
                Some(res) => sat(user_surplus(self.orders(), res.matches@, round_id, user@)),
            },
    {
        let orders = self.orders_ref();
        match self.get_round_result(round_id) {
            None => 0,
            Some(res) => {
                let ms = &res.matches;
                let mut acc: u64 = 0;
                let mut k: usize = 0;
                while k < ms.len()
                    invariant
                        k <= ms@.len(),
                        orders@ == self.orders(),
                        acc == sat(user_surplus(orders@, ms@.take(k as int), round_id, user@)),
                    decreases ms.len() - k,
                {
                    let ghost pre = ms@.take(k as int);
                    assert(ms@.take(k + 1).drop_last() =~= pre);
                    proof {
                        lemma_counts_nonnegative(orders@, pre, round_id, user@);
                    }
                    let m = ms[k];
                    let id = m.order_id;
                    if id < orders.len() as u64 && orders[id as usize].round_id == round_id && bytes_equal(
                        &orders[id as usize].owner,
                        user,
                    ) {
                        proof {
                            lemma_sat_step(user_surplus(orders@, pre, round_id, user@), m.surplus as int);
                        }
                        acc = sat_add(acc, m.surplus);
                    }
                    k = k + 1;
                }
                assert(ms@.take(ms.len() as int) =~= ms@);
                acc
            },
        }
    }

    /// Number of orders in the current round.
    pub fn get_current_round_orders(&self) -> (r: u64)
        ensures
            r == round_orders(self.orders(), self.round().round_id).len(),
    {
        let round = self.get_round_state().round_id;
        let orders = self.orders_ref();
        let mut count: u64 = 0;
        let mut i: usize = 0;
        while i < orders.len()
            invariant
                i <= orders@.len(),
                orders@ == self.orders(),
                round == self.round().round_id,
                count == round_orders(orders@.take(i as int), round).len(),
                count <= i,
            decreases orders.len() - i,
        {
            assert(orders@.take(i + 1).drop_last() =~= orders@.take(i as int));
            if orders[i].round_id == round {
                count = count + 1;
            }
            i = i + 1;
        }
        assert(orders@.take(orders.len() as int) =~= orders@);
        count
    }

    /// Copies of the orders of `user`, in submission order.
    pub fn get_user_orders(&self, user: &Vec<u8>) -> (r: Vec<Order>)
        ensures
            same_orders(r@, owned_orders(self.orders(), user@)),
    {
        let orders = self.orders_ref();
        let mut out: Vec<Order> = Vec::new();
        let mut i: usize = 0;
        while i < orders.len()
            invariant
                i <= orders@.len(),
                orders@ == self.orders(),
                same_orders(out@, owned_orders(orders@.take(i as int), user@)),
            decreases orders.len() - i,
        {
            assert(orders@.take(i + 1).drop_last() =~= orders@.take(i as int));
            let o = &orders[i];
            if bytes_equal(&o.owner, user) {
                let ghost before = out@;
                out.push(o.duplicate());
                assert forall|k: int| 0 <= k < out@.len() implies (#[trigger] out@[k]).same_as(
                    owned_orders(orders@.take(i + 1), user@)[k],
                ) by {
                    if k < before.len() {
                        assert(out@[k] == before[k]);
                    }
                }
            }
            i = i + 1;
        }
        assert(orders@.take(orders.len() as int) =~= orders@);
        out
    }

    /// Copies of the orders of `user` in the current round.
    pub fn get_user_current_round_orders(&self, user: &Vec<u8>) -> (r: Vec<Order>)
        ensures
            same_orders(r@, owned_orders(round_orders(self.orders(), self.round().round_id), user@)),
    {
        let round = self.get_round_state().round_id;
        let ro = self.get_round_orders(round);
        let mut out: Vec<Order> = Vec::new();
        let mut i: usize = 0;
        let ghost target = round_orders(self.orders(), round);
        while i < ro.len()
            invariant
                i <= ro@.len(),
                same_orders(ro@, target),
                same_orders(out@, owned_orders(target.take(i as int), user@)),
            decreases ro.len() - i,
        {
            assert(target.take(i + 1).drop_last() =~= target.take(i as int));
            assert(ro@[i as int].same_as(target[i as int]));
            let o = &ro[i];
            if bytes_equal(&o.owner, user) {
                let ghost before = out@;
                out.push(o.duplicate());
                assert forall|k: int| 0 <= k < out@.len() implies (#[trigger] out@[k]).same_as(
                    owned_orders(target.take(i + 1), user@)[k],
                ) by {
                    if k < before.len() {
                        assert(out@[k] == before[k]);
                    }
                }
            }
            i = i + 1;
        }
        assert(target.take(ro.len() as int) =~= target);
        out
    }

    /// Order counts and volumes of the current round; volumes capped at `u64::MAX`.
    pub fn get_order_book_summary(&self) -> (r: OrderBookSummary)
        ensures
            ({
                let ro = round_orders(self.orders(), self.round().round_id);
                &&& r.round_id == self.round().round_id
                &&& r.buy_orders == side_quotes(ro, true).len()
                &&& r.sell_orders == side_quotes(ro, false).len()
                &&& r.total_buy_volume == sat(total_amount(side_quotes(ro, true)))
                &&& r.total_sell_volume == sat(total_amount(side_quotes(ro, false)))
            }),
    {
        let round = self.get_round_state().round_id;
        let orders = self.orders_ref();
        let ghost ro_all = round_orders(orders@, round);
        let mut buy_count: u64 = 0;
        let mut sell_count: u64 = 0;
        let mut total_buy: u64 = 0;
        let mut total_sell: u64 = 0;
        let mut i: usize = 0;
        while i < orders.len()
            invariant
                i <= orders@.len(),
                orders@ == self.orders(),
                round == self.round().round_id,
                side_quotes(round_orders(orders@.take(i as int), round), true).len() == buy_count,
                side_quotes(round_orders(orders@.take(i as int), round), false).len() == sell_count,
                total_buy == sat(total_amount(side_quotes(round_orders(orders@.take(i as int), round), true))),
                total_sell == sat(total_amount(side_quotes(round_orders(orders@.take(i as int), round), false))),
                buy_count + sell_count <= i,
            decreases orders.len() - i,
        {
            let ghost pre = round_orders(orders@.take(i as int), round);
            assert(orders@.take(i + 1).drop_last() =~= orders@.take(i as int));
            let o = &orders[i];
            if o.round_id == round {
                let ghost post = pre.push(orders@[i as int]);
                assert(post.drop_last() =~= pre);
                proof {
                    lemma_total_amount_nonnegative(side_quotes(pre, true));
                    lemma_total_amount_nonnegative(side_quotes(pre, false));
                }
                proof {
                    let q = crate::clearing::quote_of(orders@[i as int]);
                    assert(side_quotes(pre, true).push(q).drop_last() =~= side_quotes(pre, true));
                    assert(side_quotes(pre, false).push(q).drop_last() =~= side_quotes(pre, false));
                }
                match o.order_type {
                    crate::types::OrderType::Buy => {
                        proof {
                            lemma_sat_step(total_amount(side_quotes(pre, true)), o.amount as int);
                        }
                        buy_count = buy_count + 1;
                        total_buy = sat_add(total_buy, o.amount);
                    },
                    crate::types::OrderType::Sell => {
                        proof {
                            lemma_sat_step(total_amount(side_quotes(pre, false)), o.amount as int);
                        }
                        sell_count = sell_count + 1;
                        total_sell = sat_add(total_sell, o.amount);
                    },
                }
            }
            i = i + 1;
        }
        assert(orders@.take(orders.len() as int) =~= orders@);
        OrderBookSummary {
            round_id: round,
            buy_orders: buy_count,
            sell_orders: sell_count,
            total_buy_volume: total_buy,
            total_sell_volume: total_sell,
        }
    }

    /// Platform totals: orders, rounds, users who took part in a cleared round, and the
    /// volume and surplus of every result, capped at `u64::MAX`.
    pub fn get_platform_stats(&self) -> (r: PlatformStats)
        ensures
            r.total_orders == self.orders().len(),
            r.total_rounds == self.round().round_id,
            exists|ss: Seq<UserStats>| stats_of(ss, self.orders(), self.results()) && r.total_users == ss.len(),
            r.total_volume == sat(volume_over(self.results())),
            r.total_surplus == sat(result_surplus_over(self.results())),
    {
        let results = self.results_ref();
        let stats = self.all_user_stats();
        let mut volume: u64 = 0;
        let mut surplus: u64 = 0;
        let mut k: usize = 0;
        while k < results.len()
            invariant
                k <= results@.len(),
                results@ == self.results(),
                volume == sat(volume_over(results@.take(k as int))),
                surplus == sat(result_surplus_over(results@.take(k as int))),
            decreases results.len() - k,
        {
            let ghost pre = results@.take(k as int);
            assert(results@.take(k + 1).drop_last() =~= pre);
            proof {
                lemma_result_sums_nonnegative(pre);
                lemma_sat_step(volume_over(pre), results@[k as int].total_volume as int);
                lemma_sat_step(result_surplus_over(pre), results@[k as int].total_surplus as int);
            }
            volume = sat_add(volume, results[k].total_volume);
            surplus = sat_add(surplus, results[k].total_surplus);
            k = k + 1;
        }
        assert(results@.take(results.len() as int) =~= results@);
        PlatformStats {
            total_orders: self.orders_ref().len() as u64,
            total_rounds: self.get_round_state().round_id,
            total_users: stats.len() as u64,
            total_volume: volume,
            total_surplus: surplus,
        }
    }

    /// The whole clearing price history, oldest first.
    pub fn get_price_history(&self) -> (r: &Vec<u64>)
        ensures
            r@ == self.round().clearing_price_history@,
    {
        &self.get_round_state().clearing_price_history
    }

    /// The last `count` clearing prices, oldest first.
    pub fn get_recent_prices(&self, count: usize) -> (r: Vec<u64>)
        ensures
            ({
                let h = self.round().clearing_price_history@;
                r@ == if count >= h.len() {
                    h
                } else {
                    h.skip(h.len() - count)
                }
            }),
    {
        let history = self.get_price_history();
        let start: usize = if count >= history.len() {
            0
        } else {
            history.len() - count
        };
        let mut out: Vec<u64> = Vec::new();
        let mut i: usize = start;
        while i < history.len()
            invariant
                start <= i <= history@.len(),
                out@ == history@.subrange(start as int, i as int),
            decreases history.len() - i,
        {
            out.push(history[i]);
            i = i + 1;
            assert(out@ =~= history@.subrange(start as int, i as int));
        }
        assert(history@.skip(start as int) =~= history@.subrange(start as int, history@.len() as int));
        assert(history@.skip(0) =~= history@);
        out
    }
}

proof fn lemma_total_amount_nonnegative(qs: Seq<Quote>)
    ensures
        total_amount(qs) >= 0,
    decreases qs.len(),
{
    if qs.len() > 0 {
        lemma_total_amount_nonnegative(qs.drop_last());
    }
}

proof fn lemma_result_sums_nonnegative(rs: Seq<ClearingResult>)
    ensures
        volume_over(rs) >= 0,
        result_surplus_over(rs) >= 0,
    decreases rs.len(),
{
    if rs.len() > 0 {
        lemma_result_sums_nonnegative(rs.drop_last());
    }
}
} // verus!
