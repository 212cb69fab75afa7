use vstd::prelude::*;

use crate::db::{
    close_at, closed_in_place, closed_of, contains_u64, has_open, lemma_closed_of_wf,
    lemma_opens_of_wf, open_count, opens_of, stats_ok, GenkaiError, GenkaiPointDatabase,
};
use crate::model::{
    aggregate, all_closed_wf, clamp_u64, duration_sum, points_sum, Scoring, Session, UserStat,
};

verus! {

/// The outbound announcement for a leave event that earned points: the
/// user's new cumulative total and the delta just earned.
#[derive(Clone, Copy, Debug, PartialEq, Eq, Structural)]
pub struct Notification {
    pub user_id: u64,
    /// Cumulative genkai points over all of the user's closed sessions.
    pub points: u64,
    /// Points earned by the session that was just closed.
    pub delta: u64,
}

/// Relies on std's `SystemTime::now` and `duration_since`: whole seconds
/// of the system clock since the Unix epoch. A clock before the epoch is
/// the documented error case of `duration_since` and is read as zero;
/// neither call can panic. Nothing more is promised of a clock.
#[verifier::external_body]
fn now_timestamp() -> u64 {
    match std::time::SystemTime::now().duration_since(std::time::UNIX_EPOCH) {
        Ok(since_epoch) => since_epoch.as_secs(),
        Err(_) => 0,
    }
}

/// The current time as a Unix timestamp in seconds. Handlers take the
/// timestamp as an argument and are verified for every value of it.
pub fn now_unix() -> (t: u64) {
    now_timestamp()
}

/// Of a nonempty list of closed sessions, the one with the greatest
/// `left_at`; the later record wins ties.
pub open spec fn latest_closed(s: Seq<Session>) -> Session
    recommends
        s.len() > 0,
    decreases s.len(),
{
    if s.len() <= 1 {
        s[0]
    } else if s.last().left_at->0 >= latest_closed(s.drop_last()).left_at->0 {
        s.last()
    } else {
        latest_closed(s.drop_last())
    }
}

/// The latest closed session is one of the list.
pub proof fn lemma_latest_in(s: Seq<Session>)
    requires
        s.len() > 0,
    ensures
        s.contains(latest_closed(s)),
    decreases s.len(),
{
    if s.len() == 1 {
        assert(s[0] == latest_closed(s));
    } else {
        lemma_latest_in(s.drop_last());
        if s.last().left_at->0 >= latest_closed(s.drop_last()).left_at->0 {
            assert(s[s.len() - 1] == latest_closed(s));
        } else {
            let m = choose|m: int|
                0 <= m < s.drop_last().len() && s.drop_last()[m] == latest_closed(s.drop_last());
            assert(s[m] == latest_closed(s));
        }
    }
}

/// The recorded end of a closed session.
fn left_of(s: &Session) -> (l: u64)
    requires
        s.left_at is Some,
    ensures
        l == s.left_at->0,
{
    match s.left_at {
        Some(l) => l,
        None => 0,
    }
}

/// The closed session with the greatest `left_at`, the later record
/// winning ties — the "just closed" one after a successful close.
fn pick_latest(sessions: &Vec<Session>) -> (r: Session)
    requires
        sessions@.len() > 0,
        all_closed_wf(sessions@),
    ensures
        r == latest_closed(sessions@),
{
    let mut best = sessions[0];
    let mut i: usize = 1;
    while i < sessions.len()
        invariant
            1 <= i <= sessions@.len(),
            all_closed_wf(sessions@),
            best == latest_closed(sessions@.subrange(0, i as int)),
            best.left_at is Some,
        decreases sessions@.len() - i,
    {
        proof {
            let pre = sessions@.subrange(0, i as int);
            let ext = sessions@.subrange(0, i + 1 as int);
            assert(ext.drop_last() =~= pre);
            assert(ext.last() == sessions@[i as int]);
            assert(ext.len() > 1);
        }
        let cur = sessions[i];
        let cl = left_of(&cur);
        let bl = left_of(&best);
        if cl >= bl {
            best = cur;
        }
        i = i + 1;
    }
    proof {
        assert(sessions@.subrange(0, sessions@.len() as int) =~= sessions@);
    }
    best
}

/// The sort key of a ranking: total voice time or total points.
pub open spec fn stat_key(x: UserStat, by_duration: bool) -> u64 {
    if by_duration {
        x.total_vc_duration
    } else {
        x.genkai_point
    }
}

/// The ranking order: ascending by key, ties broken by ascending user id.
/// It is total, so a ranking is deterministic across repeated calls.
pub open spec fn rank_le(a: UserStat, b: UserStat, by_duration: bool) -> bool {
    stat_key(a, by_duration) < stat_key(b, by_duration) || (stat_key(a, by_duration) == stat_key(
        b,
        by_duration,
    ) && a.user_id <= b.user_id)
}

/// Ascending under the ranking order.
pub open spec fn sorted_asc(s: Seq<UserStat>, by_duration: bool) -> bool {
    forall|a: int, b: int| 0 <= a < b < s.len() ==> rank_le(s[a], s[b], by_duration)
}

/// `page` is the presentation of `sorted`: its last entries — the greatest
/// ones — in reverse, at most twenty of them.
pub open spec fn is_page_of(page: Seq<UserStat>, sorted: Seq<UserStat>) -> bool {
    &&& page.len() == (if sorted.len() < 20 {
        sorted.len() as int
    } else {
        20
    })
    &&& forall|k: int| 0 <= k < page.len() ==> page[k] == sorted[sorted.len() - 1 - k]
}

/// Whether `a` ranks no higher than `b`.
fn rank_le_exec(a: &UserStat, b: &UserStat, by_duration: bool) -> (r: bool)
    ensures
        r == rank_le(*a, *b, by_duration),
{
    let ka = if by_duration {
        a.total_vc_duration
    } else {
        a.genkai_point
    };
    let kb = if by_duration {
        b.total_vc_duration
    } else {
        b.genkai_point
    };
    ka < kb || (ka == kb && a.user_id <= b.user_id)
}

/// Index of a least entry under the ranking order.
fn find_min(v: &Vec<UserStat>, by_duration: bool) -> (m: usize)
    requires
        v@.len() > 0,
    ensures
        m < v@.len(),
        forall|k: int| 0 <= k < v@.len() ==> rank_le(v@[m as int], v@[k], by_duration),
{
    let mut m: usize = 0;
    let mut i: usize = 1;
    while i < v.len()
        invariant
            m < i <= v@.len(),
            forall|k: int| 0 <= k < i as int ==> rank_le(v@[m as int], v@[k], by_duration),
        decreases v@.len() - i,
    {
        if rank_le_exec(&v[i], &v[m], by_duration) {
            m = i;
        }
        i = i + 1;
    }
    m
}

/// Selection sort under the ranking order: ascending by key, ties broken
/// by ascending user id, so the result is unique for a given multiset.
fn sort_stats(v: Vec<UserStat>, by_duration: bool) -> (out: Vec<UserStat>)
    ensures
        sorted_asc(out@, by_duration),
        out@.to_multiset() == v@.to_multiset(),
{
    let ghost orig = v@;
    let mut rest = v;
    let mut out: Vec<UserStat> = Vec::new();
    proof {
        broadcast use vstd::seq_lib::group_to_multiset_ensures;
        broadcast use vstd::multiset::group_multiset_axioms;

        vstd::multiset::lemma_multiset_empty_len(out@.to_multiset());
        assert(out@.to_multiset().add(rest@.to_multiset()) =~= orig.to_multiset());
    }
    while rest.len() > 0
        invariant
            out@.to_multiset().add(rest@.to_multiset()) == orig.to_multiset(),
            sorted_asc(out@, by_duration),
            forall|a: int, b: int|
                0 <= a < out@.len() && 0 <= b < rest@.len() ==> rank_le(
                    out@[a],
                    rest@[b],
                    by_duration,
                ),
        decreases rest@.len(),
    {
        let ghost out_pre = out@;
        let ghost rest_pre = rest@;
        let m = find_min(&rest, by_duration);
        let x = rest.remove(m);
        out.push(x);
        proof {
            broadcast use vstd::seq_lib::group_to_multiset_ensures;
            broadcast use vstd::multiset::group_multiset_axioms;

            assert(rest@.to_multiset() == rest_pre.to_multiset().remove(x));
            assert(out@.to_multiset() == out_pre.to_multiset().insert(x));
            assert(rest_pre.contains(x));
            assert(rest_pre.to_multiset().count(x) > 0);
            assert(out@.to_multiset().add(rest@.to_multiset()) =~= orig.to_multiset());
            assert(out@ == out_pre.push(x));
            assert forall|a: int, b: int|
                0 <= a < b < out@.len() implies rank_le(out@[a], out@[b], by_duration) by {
                if b < out@.len() - 1 {
                    assert(rank_le(out_pre[a], out_pre[b], by_duration));
                }
            }
            assert forall|a: int, b: int|
                0 <= a < out@.len() && 0 <= b < rest@.len() implies rank_le(
                out@[a],
                rest@[b],
                by_duration,
            ) by {
                if b < m {
                    assert(rest@[b] == rest_pre[b]);
                } else {
                    assert(rest@[b] == rest_pre[b + 1]);
                }
                if a < out@.len() - 1 {
                    assert(rank_le(out_pre[a], rest@[b], by_duration));
                } else {
                    assert(out@[a] == x);
                }
            }
        }
    }
    proof {
        broadcast use vstd::seq_lib::group_to_multiset_ensures;
        broadcast use vstd::multiset::group_multiset_axioms;

        assert(rest@.len() == 0);
        vstd::multiset::lemma_multiset_empty_len(rest@.to_multiset());
        assert(out@.to_multiset() =~= orig.to_multiset());
    }
    out
}

/// Ranking: in a nonempty ranking, the first shown entry carries a maximal
/// key — no user of the stats beats it — and the order is deterministic,
/// ties resolving by the documented user-id tiebreak.
pub proof fn lemma_ranking_top(
    page: Seq<UserStat>,
    sorted: Seq<UserStat>,
    stats: Seq<UserStat>,
    by_duration: bool,
)
    requires
        sorted.to_multiset() == stats.to_multiset(),
        sorted_asc(sorted, by_duration),
        is_page_of(page, sorted),
        stats.len() > 0,
    ensures
        page.len() > 0,
        forall|k: int|
            0 <= k < stats.len() ==> stat_key(stats[k], by_duration) <= stat_key(
                page[0],
                by_duration,
            ),
{
    broadcast use vstd::seq_lib::group_to_multiset_ensures;
    broadcast use vstd::multiset::group_multiset_axioms;

    assert(sorted.len() == sorted.to_multiset().len());
    assert(stats.len() == stats.to_multiset().len());
    assert(sorted.len() == stats.len());
    assert(page[0] == sorted[sorted.len() - 1]);
    assert forall|k: int|
        0 <= k < stats.len() implies stat_key(stats[k], by_duration) <= stat_key(
        page[0],
        by_duration,
    ) by {
        assert(stats.contains(stats[k]));
        assert(stats.to_multiset().count(stats[k]) > 0);
        assert(sorted.to_multiset().count(stats[k]) > 0);
        assert(sorted.contains(stats[k]));
        let j = choose|j: int| 0 <= j < sorted.len() && sorted[j] == stats[k];
        if j < sorted.len() - 1 {
            assert(rank_le(sorted[j], sorted[sorted.len() - 1], by_duration));
        }
    }
}

/// Two ascending arrangements of the same stat entries are the same
/// sequence, provided no two entries share a user id: the ranking order is
/// total, ties falling to the user id.
pub proof fn lemma_sorted_unique(s1: Seq<UserStat>, s2: Seq<UserStat>, by_duration: bool)
    requires
        sorted_asc(s1, by_duration),
        sorted_asc(s2, by_duration),
        s1.to_multiset() == s2.to_multiset(),
        forall|i: int, j: int| 0 <= i < j < s1.len() ==> s1[i].user_id != s1[j].user_id,
    ensures
        s1 == s2,
    decreases s1.len(),
{
    broadcast use vstd::seq_lib::group_to_multiset_ensures;
    broadcast use vstd::multiset::group_multiset_axioms;

    assert(s1.len() == s1.to_multiset().len());
    assert(s2.len() == s2.to_multiset().len());
    if s1.len() == 0 {
        assert(s1 =~= s2);
    } else {
        let n = s1.len() as int;
        let a = s1.last();
        let b = s2.last();
        assert(s1.contains(a));
        assert(s1.to_multiset().count(a) > 0);
        assert(s2.contains(a));
        let j = choose|j: int| 0 <= j < s2.len() && s2[j] == a;
        assert(rank_le(a, b, by_duration)) by {
            if j < s2.len() - 1 {
                assert(rank_le(s2[j], s2[s2.len() - 1], by_duration));
            }
        }
        assert(s2.contains(b));
        assert(s2.to_multiset().count(b) > 0);
        assert(s1.contains(b));
        let k = choose|k: int| 0 <= k < s1.len() && s1[k] == b;
        assert(rank_le(b, a, by_duration)) by {
            if k < n - 1 {
                assert(rank_le(s1[k], s1[n - 1], by_duration));
            }
        }
        assert(a.user_id == b.user_id);
        assert(k == n - 1) by {
            if k < n - 1 {
                assert(s1[k].user_id != s1[n - 1].user_id);
            }
        }
        assert(b == a);
        let d1 = s1.drop_last();
        let d2 = s2.drop_last();
        assert(d1 =~= s1.remove(n - 1));
        assert(d2 =~= s2.remove(s2.len() - 1));
        assert(s1.remove(n - 1).to_multiset() == s1.to_multiset().remove(a));
        assert(s2.remove(s2.len() - 1).to_multiset() == s2.to_multiset().remove(b));
        assert(d1.to_multiset() == d2.to_multiset());
        assert(sorted_asc(d1, by_duration)) by {
            assert forall|x: int, y: int|
                0 <= x < y < d1.len() implies rank_le(d1[x], d1[y], by_duration) by {
                assert(d1[x] == s1[x]);
                assert(d1[y] == s1[y]);
            }
        }
        assert(sorted_asc(d2, by_duration)) by {
            assert forall|x: int, y: int|
                0 <= x < y < d2.len() implies rank_le(d2[x], d2[y], by_duration) by {
                assert(d2[x] == s2[x]);
                assert(d2[y] == s2[y]);
            }
        }
        assert forall|x: int, y: int|
            0 <= x < y < d1.len() implies d1[x].user_id != d1[y].user_id by {
            assert(d1[x] == s1[x]);
            assert(d1[y] == s1[y]);
        }
        lemma_sorted_unique(d1, d2, by_duration);
        assert forall|i: int| 0 <= i < s1.len() implies s1[i] == s2[i] by {
            if i < n - 1 {
                assert(d1[i] == s1[i]);
                assert(d2[i] == s2[i]);
                assert(d1[i] == d2[i]);
            } else {
                assert(s1[i] == a);
                assert(s2[i] == b);
            }
        }
        assert(s1 =~= s2);
    }
}

/// Rearranging a stat list whose user ids are pairwise distinct — as
/// those of `get_all_users_stats` are — keeps them pairwise distinct.
pub proof fn lemma_distinct_uids_transfer(stats: Seq<UserStat>, sorted: Seq<UserStat>)
    requires
        sorted.to_multiset() == stats.to_multiset(),
        forall|i: int, j: int| 0 <= i < j < stats.len() ==> stats[i].user_id != stats[j].user_id,
    ensures
        forall|i: int, j: int| 0 <= i < j < sorted.len() ==> sorted[i].user_id
            != sorted[j].user_id,
{
    broadcast use vstd::seq_lib::group_to_multiset_ensures;
    broadcast use vstd::multiset::group_multiset_axioms;

    assert(stats.no_duplicates()) by {
        assert forall|i: int, j: int|
            0 <= i < stats.len() && 0 <= j < stats.len() && i != j implies stats[i]
            != stats[j] by {
            if i < j {
                assert(stats[i].user_id != stats[j].user_id);
            } else {
                assert(stats[j].user_id != stats[i].user_id);
            }
        }
    }
    stats.lemma_multiset_has_no_duplicates();
    sorted.lemma_multiset_has_no_duplicates_conv();
    assert forall|i: int, j: int|
        0 <= i < j < sorted.len() implies sorted[i].user_id != sorted[j].user_id by {
        if sorted[i].user_id == sorted[j].user_id {
            assert(sorted[i] != sorted[j]);
            assert(sorted.contains(sorted[i]));
            assert(sorted.contains(sorted[j]));
            assert(stats.to_multiset().count(sorted[i]) > 0);
            assert(stats.to_multiset().count(sorted[j]) > 0);
            assert(stats.contains(sorted[i]));
            assert(stats.contains(sorted[j]));
            let k1 = choose|k: int| 0 <= k < stats.len() && stats[k] == sorted[i];
            let k2 = choose|k: int| 0 <= k < stats.len() && stats[k] == sorted[j];
            assert(k1 != k2);
            if k1 < k2 {
                assert(stats[k1].user_id != stats[k2].user_id);
            } else {
                assert(stats[k2].user_id != stats[k1].user_id);
            }
        }
    }
}

/// Determinism of the ranking presentation: since the order is total and
/// no two stat entries share a user id, any two ranking pages drawn from
/// the same entries are equal — repeated calls always show one order,
/// ties resolved by the documented user-id tiebreak.
pub proof fn lemma_ranking_deterministic(
    s1: Seq<UserStat>,
    s2: Seq<UserStat>,
    page1: Seq<UserStat>,
    page2: Seq<UserStat>,
    by_duration: bool,
)
    requires
        sorted_asc(s1, by_duration),
        sorted_asc(s2, by_duration),
        s1.to_multiset() == s2.to_multiset(),
        forall|i: int, j: int| 0 <= i < j < s1.len() ==> s1[i].user_id != s1[j].user_id,
        is_page_of(page1, s1),
        is_page_of(page2, s2),
    ensures
        s1 == s2,
        page1 == page2,
{
    lemma_sorted_unique(s1, s2, by_duration);
    assert(page1 =~= page2);
}

/// The lifecycle coordinator: it reacts to presence events and the
/// reconciliation snapshot, and drives a session store through the
/// open/close protocol.
pub struct GenkaiPointBot;

impl GenkaiPointBot {
    /// Creates the coordinator.
    pub fn new() -> (r: Self) {
        GenkaiPointBot
    }

    /// Handles a presence-join at time `now`: opens a session unless one
    /// is already open — the expected no-op after a reconnect glitch.
    pub fn on_vc_join<D: GenkaiPointDatabase>(
        &self,
        db: &mut D,
        user_id: u64,
        now: u64,
    ) -> (r: Result<(), GenkaiError>)
        requires
            old(db).inv(),
        ensures
            final(db).inv(),
            r is Err ==> final(db).sessions() == old(db).sessions(),
            r is Ok ==> open_count(final(db).sessions(), user_id) == 1,
            r is Ok && has_open(old(db).sessions(), user_id) ==> final(db).sessions() == old(
                db,
            ).sessions(),
            r is Ok && !has_open(old(db).sessions(), user_id) ==> final(db).sessions() == old(
                db,
            ).sessions().push((Session { user_id, joined_at: now, left_at: None })),
    {
        match db.create_new_session(user_id, now) {
            Ok(_) => Ok(()),
            Err(e) => Err(e),
        }
    }

    /// Handles a presence-leave at time `now`: closes the open session
    /// and, exactly when the just-closed session — the closed one with the
    /// greatest `left_at` — earned a strictly positive point value,
    /// returns the notification to announce. Leaving without an open
    /// session surfaces the store's error.
    pub fn on_vc_leave<D: GenkaiPointDatabase>(
        &self,
        db: &mut D,
        user_id: u64,
        now: u64,
    ) -> (r: Result<Option<Notification>, GenkaiError>)
        requires
            old(db).inv(),
        ensures
            final(db).inv(),
            !has_open(old(db).sessions(), user_id) ==> r is Err && final(db).sessions() == old(
                db,
            ).sessions(),
            r is Ok ==> has_open(old(db).sessions(), user_id),
            r is Ok ==> open_count(final(db).sessions(), user_id) == 0,
            r is Ok ==> opens_of(final(db).sessions(), user_id) == Seq::<Session>::empty(),
            r is Ok ==> closed_in_place(final(db).sessions(), old(db).sessions(), user_id, now),
            r is Ok ==> forall|u: u64|
                u != user_id ==> closed_of(final(db).sessions(), u) == closed_of(
                    old(db).sessions(),
                    u,
                ) && open_count(final(db).sessions(), u) == open_count(old(db).sessions(), u)
                    && opens_of(final(db).sessions(), u) == opens_of(old(db).sessions(), u),
            r matches Ok(n) ==> {
                let cs = closed_of(final(db).sessions(), user_id);
                let top = latest_closed(cs);
                let delta = D::Policy::point_spec(top.joined_at, top.left_at->0);
                &&& cs.len() > 0
                &&& (n is Some <==> delta > 0)
                &&& (n matches Some(m) ==> m == (Notification {
                    user_id,
                    points: clamp_u64(points_sum::<D::Policy>(cs)),
                    delta,
                }))
            },
    {
        match db.close_session(user_id, now) {
            Err(e) => {
                return Err(e);
            },
            Ok(()) => {},
        }
        let sessions = match db.get_users_all_sessions(user_id) {
            Err(e) => {
                return Err(e);
            },
            Ok(v) => v,
        };
        proof {
            db.inv_implies_model();
            lemma_closed_of_wf(db.sessions(), user_id);
            assert(sessions@.len() > 0);
        }
        let top = pick_latest(&sessions);
        proof {
            lemma_latest_in(sessions@);
            let m = choose|m: int|
                0 <= m < sessions@.len() && sessions@[m] == latest_closed(sessions@);
            assert(sessions@[m].left_at is Some && sessions@[m].wf());
        }
        let delta = top.calc_point::<D::Policy>();
        if delta > 0 {
            let agg = aggregate::<D::Policy>(&sessions);
            Ok(Some(Notification { user_id, points: agg.0, delta }))
        } else {
            Ok(None)
        }
    }

    /// Reconciliation after a (re)connect, `joined_user_ids` being the
    /// authoritative snapshot of currently present users. The create-pass
    /// backfills a session, starting now, for every present user the store
    /// missed; only after it completes does the close-pass close every
    /// open session of an absent user — so a user present across the
    /// reconnect is never spuriously closed. No notification is emitted:
    /// the timestamps are approximate, but the point accrual is real.
    pub fn on_vc_data_available<D: GenkaiPointDatabase>(
        &self,
        db: &mut D,
        joined_user_ids: &Vec<u64>,
        now: u64,
    ) -> (r: Result<(), GenkaiError>)
        requires
            old(db).inv(),
        ensures
            final(db).inv(),
            r is Ok ==> forall|u: u64|
                #[trigger] has_open(final(db).sessions(), u) <==> joined_user_ids@.contains(u),
            r is Ok ==> forall|u: u64|
                joined_user_ids@.contains(u) || !has_open(old(db).sessions(), u)
                    ==> #[trigger] closed_of(final(db).sessions(), u) == closed_of(
                    old(db).sessions(),
                    u,
                ),
            r is Ok ==> forall|u: u64|
                joined_user_ids@.contains(u) && has_open(old(db).sessions(), u)
                    ==> #[trigger] opens_of(final(db).sessions(), u) == opens_of(
                    old(db).sessions(),
                    u,
                ),
            r is Ok ==> forall|u: u64|
                joined_user_ids@.contains(u) && !has_open(old(db).sessions(), u)
                    ==> #[trigger] opens_of(final(db).sessions(), u) == seq![
                    (Session { user_id: u, joined_at: now, left_at: None }),
                ],
            r is Ok ==> forall|u: u64|
                !joined_user_ids@.contains(u) && !has_open(old(db).sessions(), u)
                    ==> #[trigger] opens_of(final(db).sessions(), u) == opens_of(
                    old(db).sessions(),
                    u,
                ),
            r is Ok ==> forall|u: u64|
                !joined_user_ids@.contains(u) && has_open(old(db).sessions(), u)
                    ==> #[trigger] reconciled_close(
                    final(db).sessions(),
                    old(db).sessions(),
                    u,
                    now,
                ),
    {
        let ghost pre = old(db).sessions();
        let mut i: usize = 0;
        while i < joined_user_ids.len()
            invariant
                db.inv(),
                i <= joined_user_ids@.len(),
                forall|u: u64|
                    joined_user_ids@.subrange(0, i as int).contains(u) ==> #[trigger] open_count(
                        db.sessions(),
                        u,
                    ) == 1,
                forall|u: u64|
                    !joined_user_ids@.subrange(0, i as int).contains(u) ==> #[trigger] open_count(
                        db.sessions(),
                        u,
                    ) == open_count(pre, u),
                forall|u: u64| #[trigger]
                    closed_of(db.sessions(), u) == closed_of(pre, u),
                forall|u: u64|
                    joined_user_ids@.subrange(0, i as int).contains(u) && has_open(pre, u)
                        ==> #[trigger] opens_of(db.sessions(), u) == opens_of(pre, u),
                forall|u: u64|
                    joined_user_ids@.subrange(0, i as int).contains(u) && !has_open(pre, u)
                        ==> #[trigger] opens_of(db.sessions(), u) == seq![
                        (Session { user_id: u, joined_at: now, left_at: None }),
                    ],
                forall|u: u64|
                    !joined_user_ids@.subrange(0, i as int).contains(u)
                        ==> #[trigger] opens_of(db.sessions(), u) == opens_of(pre, u),
            decreases joined_user_ids@.len() - i,
        {
            let uid = joined_user_ids[i];
            let ghost sub_pre = joined_user_ids@.subrange(0, i as int);
            let ghost sub_ext = joined_user_ids@.subrange(0, (i + 1) as int);
            let ghost before = db.sessions();
            let created = match db.create_new_session(uid, now) {
                Ok(b) => b,
                Err(e) => {
                    return Err(e);
                },
            };
            proof {
                assert(sub_ext =~= sub_pre.push(uid));
                assert(sub_ext[sub_pre.len() as int] == uid);
                assert(sub_ext.contains(uid));
                assert forall|u: u64| sub_ext.contains(u) implies #[trigger] open_count(
                    db.sessions(),
                    u,
                ) == 1 by {
                    if u != uid {
                        let m = choose|m: int| 0 <= m < sub_ext.len() && sub_ext[m] == u;
                        assert(sub_pre[m] == u);
                        assert(sub_pre.contains(u));
                    }
                }
                assert forall|u: u64| !sub_ext.contains(u) implies #[trigger] open_count(
                    db.sessions(),
                    u,
                ) == open_count(pre, u) by {
                    if sub_pre.contains(u) {
                        let m = choose|m: int| 0 <= m < sub_pre.len() && sub_pre[m] == u;
                        assert(sub_ext[m] == u);
                    }
                    assert(u != uid);
                }
                assert forall|u: u64|
                    sub_ext.contains(u) && has_open(pre, u) implies #[trigger] opens_of(
                    db.sessions(),
                    u,
                ) == opens_of(pre, u) by {
                    if u == uid {
                        assert(!created) by {
                            if created {
                                assert(!has_open(before, uid));
                                if sub_pre.contains(uid) {
                                    assert(open_count(before, uid) == 1);
                                } else {
                                    assert(open_count(before, uid) == open_count(pre, uid));
                                }
                            }
                        }
                        assert(opens_of(db.sessions(), uid) == opens_of(before, uid));
                        assert(opens_of(before, uid) == opens_of(pre, uid));
                    } else {
                        let m = choose|m: int| 0 <= m < sub_ext.len() && sub_ext[m] == u;
                        assert(m < sub_pre.len());
                        assert(sub_pre[m] == u);
                        assert(sub_pre.contains(u));
                        assert(opens_of(before, u) == opens_of(pre, u));
                        assert(opens_of(db.sessions(), u) == opens_of(before, u));
                    }
                }
                assert forall|u: u64|
                    sub_ext.contains(u) && !has_open(pre, u) implies #[trigger] opens_of(
                    db.sessions(),
                    u,
                ) == seq![(Session { user_id: u, joined_at: now, left_at: None })] by {
                    if u == uid {
                        if created {
                            assert(opens_of(db.sessions(), uid) == seq![
                                (Session { user_id: uid, joined_at: now, left_at: None }),
                            ]);
                        } else {
                            assert(has_open(before, uid));
                            assert(sub_pre.contains(uid)) by {
                                if !sub_pre.contains(uid) {
                                    assert(open_count(before, uid) == open_count(pre, uid));
                                }
                            }
                            assert(opens_of(before, uid) == seq![
                                (Session { user_id: uid, joined_at: now, left_at: None }),
                            ]);
                            assert(opens_of(db.sessions(), uid) == opens_of(before, uid));
                        }
                    } else {
                        let m = choose|m: int| 0 <= m < sub_ext.len() && sub_ext[m] == u;
                        assert(m < sub_pre.len());
                        assert(sub_pre[m] == u);
                        assert(sub_pre.contains(u));
                        assert(opens_of(before, u) == seq![
                            (Session { user_id: u, joined_at: now, left_at: None }),
                        ]);
                        assert(opens_of(db.sessions(), u) == opens_of(before, u));
                    }
                }
                assert forall|u: u64| !sub_ext.contains(u) implies #[trigger] opens_of(
                    db.sessions(),
                    u,
                ) == opens_of(pre, u) by {
                    if sub_pre.contains(u) {
                        let m = choose|m: int| 0 <= m < sub_pre.len() && sub_pre[m] == u;
                        assert(sub_ext[m] == u);
                    }
                    assert(u != uid);
                    assert(opens_of(before, u) == opens_of(pre, u));
                    assert(opens_of(db.sessions(), u) == opens_of(before, u));
                }
            }
            i = i + 1;
        }
        proof {
            assert(joined_user_ids@.subrange(0, joined_user_ids@.len() as int)
                =~= joined_user_ids@);
        }
        let ghost mid = db.sessions();
        let open_users = match db.get_all_users_who_has_unclosed_session() {
            Ok(v) => v,
            Err(e) => {
                return Err(e);
            },
        };
        let mut j: usize = 0;
        while j < open_users.len()
            invariant
                db.inv(),
                j <= open_users@.len(),
                open_users@.no_duplicates(),
                forall|u: u64| open_users@.contains(u) <==> has_open(mid, u),
                forall|u: u64|
                    joined_user_ids@.contains(u) ==> #[trigger] open_count(mid, u) == 1,
                forall|u: u64|
                    !joined_user_ids@.contains(u) ==> #[trigger] open_count(mid, u) == open_count(
                        pre,
                        u,
                    ),
                forall|u: u64| #[trigger] closed_of(mid, u) == closed_of(pre, u),
                forall|u: u64|
                    joined_user_ids@.contains(u) && has_open(pre, u) ==> #[trigger] opens_of(
                        mid,
                        u,
                    ) == opens_of(pre, u),
                forall|u: u64|
                    joined_user_ids@.contains(u) && !has_open(pre, u) ==> #[trigger] opens_of(
                        mid,
                        u,
                    ) == seq![(Session { user_id: u, joined_at: now, left_at: None })],
                forall|u: u64|
                    !joined_user_ids@.contains(u) ==> #[trigger] opens_of(mid, u) == opens_of(
                        pre,
                        u,
                    ),
                forall|u: u64|
                    !(open_users@.subrange(0, j as int).contains(u)
                        && !joined_user_ids@.contains(u)) ==> #[trigger] open_count(
                        db.sessions(),
                        u,
                    ) == open_count(mid, u),
                forall|u: u64|
                    !(open_users@.subrange(0, j as int).contains(u)
                        && !joined_user_ids@.contains(u)) ==> #[trigger] closed_of(
                        db.sessions(),
                        u,
                    ) == closed_of(mid, u),
                forall|u: u64|
                    !(open_users@.subrange(0, j as int).contains(u)
                        && !joined_user_ids@.contains(u)) ==> #[trigger] opens_of(
                        db.sessions(),
                        u,
                    ) == opens_of(mid, u),
                forall|u: u64|
                    open_users@.subrange(0, j as int).contains(u) && !joined_user_ids@.contains(u)
                        ==> #[trigger] open_count(db.sessions(), u) == 0,
                forall|u: u64|
                    open_users@.subrange(0, j as int).contains(u) && !joined_user_ids@.contains(u)
                        ==> #[trigger] reconciled_close(db.sessions(), mid, u, now),
            decreases open_users@.len() - j,
        {
            let uid = open_users[j];
            let ghost sub_pre = open_users@.subrange(0, j as int);
            let ghost sub_ext = open_users@.subrange(0, (j + 1) as int);
            proof {
                assert(sub_ext =~= sub_pre.push(uid));
                assert(sub_ext[sub_pre.len() as int] == uid);
                assert(sub_ext.contains(uid));
                assert(open_users@[j as int] == uid);
                assert(open_users@.contains(uid));
            }
            if !contains_u64(joined_user_ids, uid) {
                proof {
                    assert(!sub_pre.contains(uid));
                    assert(open_count(db.sessions(), uid) == open_count(mid, uid));
                    assert(has_open(mid, uid));
                    assert(opens_of(db.sessions(), uid) == opens_of(mid, uid));
                    db.inv_implies_model();
                }
                let ghost before = db.sessions();
                match db.close_session(uid, now) {
                    Ok(()) => {},
                    Err(e) => {
                        return Err(e);
                    },
                }
                proof {
                    assert(closed_in_place(db.sessions(), before, uid, now));
                    let k0 = choose|k: int| #![auto]
                        0 <= k < before.len() && before[k].user_id == uid && before[k].is_open()
                            && opens_of(before, uid) == seq![before[k]] && db.sessions()
                            == before.update(k, close_at(before[k], now)) && closed_of(
                            db.sessions(),
                            uid,
                        ) == closed_of(before, uid).push(close_at(before[k], now));
                    let s = before[k0];
                    assert(s.user_id == uid && s.is_open());
                    assert(s.wf()) by {
                        assert(crate::db::all_wf(before));
                    }
                    assert(opens_of(mid, uid) == seq![s]);
                    assert(mid.contains(s)) by {
                        lemma_opens_of_wf(mid, uid);
                        assert(opens_of(mid, uid)[0] == s);
                    }
                    assert(closed_of(before, uid) == closed_of(mid, uid));
                    assert(closed_of(db.sessions(), uid) == closed_of(mid, uid).push(
                        close_at(s, now),
                    ));
                    assert(reconciled_close(db.sessions(), mid, uid, now));
                    assert forall|u: u64|
                        !(sub_ext.contains(u) && !joined_user_ids@.contains(u)) implies
                        #[trigger] open_count(db.sessions(), u) == open_count(mid, u) by {
                        if sub_pre.contains(u) {
                            let m = choose|m: int| 0 <= m < sub_pre.len() && sub_pre[m] == u;
                            assert(sub_ext[m] == u);
                        }
                        assert(u != uid);
                        assert(open_count(before, u) == open_count(mid, u));
                    }
                    assert forall|u: u64|
                        !(sub_ext.contains(u) && !joined_user_ids@.contains(u)) implies
                        #[trigger] closed_of(db.sessions(), u) == closed_of(mid, u) by {
                        if sub_pre.contains(u) {
                            let m = choose|m: int| 0 <= m < sub_pre.len() && sub_pre[m] == u;
                            assert(sub_ext[m] == u);
                        }
                        assert(u != uid);
                        assert(closed_of(before, u) == closed_of(mid, u));
                    }
                    assert forall|u: u64|
                        !(sub_ext.contains(u) && !joined_user_ids@.contains(u)) implies
                        #[trigger] opens_of(db.sessions(), u) == opens_of(mid, u) by {
                        if sub_pre.contains(u) {
                            let m = choose|m: int| 0 <= m < sub_pre.len() && sub_pre[m] == u;
                            assert(sub_ext[m] == u);
                        }
                        assert(u != uid);
                        assert(opens_of(before, u) == opens_of(mid, u));
                    }
                    assert forall|u: u64|
                        sub_ext.contains(u) && !joined_user_ids@.contains(u) implies #[trigger]
                        open_count(db.sessions(), u) == 0 by {
                        if u != uid {
                            let m = choose|m: int| 0 <= m < sub_ext.len() && sub_ext[m] == u;
                            assert(m < sub_pre.len());
                            assert(sub_pre[m] == u);
                            assert(sub_pre.contains(u));
                            assert(open_count(before, u) == 0);
                        }
                    }
                    assert forall|u: u64|
                        sub_ext.contains(u) && !joined_user_ids@.contains(u) implies #[trigger]
                        reconciled_close(db.sessions(), mid, u, now) by {
                        if u != uid {
                            let m = choose|m: int| 0 <= m < sub_ext.len() && sub_ext[m] == u;
                            assert(m < sub_pre.len());
                            assert(sub_pre[m] == u);
                            assert(sub_pre.contains(u));
                            assert(reconciled_close(before, mid, u, now));
                            let s2 = choose|s2: Session| #![auto]
                                s2.user_id == u && s2.is_open() && s2.wf() && mid.contains(s2)
                                    && opens_of(mid, u) == seq![s2] && closed_of(before, u)
                                    == closed_of(mid, u).push(close_at(s2, now));
                            assert(closed_of(db.sessions(), u) == closed_of(before, u));
                            assert(closed_of(db.sessions(), u) == closed_of(mid, u).push(
                                close_at(s2, now),
                            ));
                            assert(reconciled_close(db.sessions(), mid, u, now));
                        }
                    }
                }
            } else {
                proof {
                    assert forall|u: u64|
                        !(sub_ext.contains(u) && !joined_user_ids@.contains(u)) implies
                        #[trigger] open_count(db.sessions(), u) == open_count(mid, u) by {
                        if sub_pre.contains(u) {
                            let m = choose|m: int| 0 <= m < sub_pre.len() && sub_pre[m] == u;
                            assert(sub_ext[m] == u);
                        }
                    }
                    assert forall|u: u64|
                        !(sub_ext.contains(u) && !joined_user_ids@.contains(u)) implies
                        #[trigger] closed_of(db.sessions(), u) == closed_of(mid, u) by {
                        if sub_pre.contains(u) {
                            let m = choose|m: int| 0 <= m < sub_pre.len() && sub_pre[m] == u;
                            assert(sub_ext[m] == u);
                        }
                    }
                    assert forall|u: u64|
                        !(sub_ext.contains(u) && !joined_user_ids@.contains(u)) implies
                        #[trigger] opens_of(db.sessions(), u) == opens_of(mid, u) by {
                        if sub_pre.contains(u) {
                            let m = choose|m: int| 0 <= m < sub_pre.len() && sub_pre[m] == u;
                            assert(sub_ext[m] == u);
                        }
                    }
                    assert forall|u: u64|
                        sub_ext.contains(u) && !joined_user_ids@.contains(u) implies #[trigger]
                        open_count(db.sessions(), u) == 0 by {
                        let m = choose|m: int| 0 <= m < sub_ext.len() && sub_ext[m] == u;
                        assert(m < sub_pre.len());
                        assert(sub_pre[m] == u);
                        assert(sub_pre.contains(u));
                    }
                    assert forall|u: u64|
                        sub_ext.contains(u) && !joined_user_ids@.contains(u) implies #[trigger]
                        reconciled_close(db.sessions(), mid, u, now) by {
                        let m = choose|m: int| 0 <= m < sub_ext.len() && sub_ext[m] == u;
                        assert(m < sub_pre.len());
                        assert(sub_pre[m] == u);
                        assert(sub_pre.contains(u));
                    }
                }
            }
            j = j + 1;
        }
        proof {
            assert(open_users@.subrange(0, open_users@.len() as int) =~= open_users@);
            assert forall|u: u64|
                #[trigger] has_open(db.sessions(), u) <==> joined_user_ids@.contains(u) by {
                if joined_user_ids@.contains(u) {
                    assert(open_count(db.sessions(), u) == open_count(mid, u));
                } else {
                    if has_open(mid, u) {
                        assert(open_users@.contains(u));
                        assert(open_count(db.sessions(), u) == 0);
                    } else {
                        assert(open_count(db.sessions(), u) == open_count(mid, u));
                    }
                }
            }
            assert forall|u: u64|
                joined_user_ids@.contains(u) || !has_open(pre, u) implies #[trigger] closed_of(
                db.sessions(),
                u,
            ) == closed_of(pre, u) by {
                if joined_user_ids@.contains(u) {
                    assert(open_count(db.sessions(), u) == open_count(mid, u));
                    assert(closed_of(db.sessions(), u) == closed_of(mid, u));
                } else {
                    assert(open_count(mid, u) == open_count(pre, u));
                    assert(!has_open(mid, u));
                    assert(!open_users@.contains(u));
                    assert(!open_users@.subrange(0, j as int).contains(u));
                    assert(open_count(db.sessions(), u) == open_count(mid, u));
                    assert(closed_of(db.sessions(), u) == closed_of(mid, u));
                }
            }
            assert forall|u: u64|
                joined_user_ids@.contains(u) && has_open(pre, u) implies #[trigger] opens_of(
                db.sessions(),
                u,
            ) == opens_of(pre, u) by {
                assert(opens_of(db.sessions(), u) == opens_of(mid, u));
                assert(opens_of(mid, u) == opens_of(pre, u));
            }
            assert forall|u: u64|
                joined_user_ids@.contains(u) && !has_open(pre, u) implies #[trigger] opens_of(
                db.sessions(),
                u,
            ) == seq![(Session { user_id: u, joined_at: now, left_at: None })] by {
                assert(opens_of(db.sessions(), u) == opens_of(mid, u));
                assert(opens_of(mid, u) == seq![
                    (Session { user_id: u, joined_at: now, left_at: None }),
                ]);
            }
            assert forall|u: u64|
                !joined_user_ids@.contains(u) && !has_open(pre, u) implies #[trigger] opens_of(
                db.sessions(),
                u,
            ) == opens_of(pre, u) by {
                assert(open_count(mid, u) == open_count(pre, u));
                assert(!has_open(mid, u));
                assert(!open_users@.contains(u));
                assert(!open_users@.subrange(0, j as int).contains(u));
                assert(opens_of(db.sessions(), u) == opens_of(mid, u));
                assert(opens_of(mid, u) == opens_of(pre, u));
            }
            assert forall|u: u64|
                !joined_user_ids@.contains(u) && has_open(pre, u) implies #[trigger]
                reconciled_close(db.sessions(), pre, u, now) by {
                assert(open_count(mid, u) == open_count(pre, u));
                assert(has_open(mid, u));
                assert(open_users@.contains(u));
                assert(open_users@.subrange(0, j as int).contains(u));
                assert(reconciled_close(db.sessions(), mid, u, now));
                let s = choose|s: Session| #![auto]
                    s.user_id == u && s.is_open() && s.wf() && mid.contains(s) && opens_of(mid, u)
                        == seq![s] && closed_of(db.sessions(), u) == closed_of(mid, u).push(
                        close_at(s, now),
                    );
                assert(closed_of(mid, u) == closed_of(pre, u));
                assert(opens_of(mid, u) == opens_of(pre, u));
                assert(pre.contains(s)) by {
                    lemma_opens_of_wf(pre, u);
                    assert(opens_of(pre, u)[0] == s);
                }
                assert(closed_of(db.sessions(), u) == closed_of(pre, u).push(close_at(s, now)));
                assert(reconciled_close(db.sessions(), pre, u, now));
            }
        }
        Ok(())
    }

    /// The leaderboard data: every user's stats, sorted for presentation —
    /// descending by the chosen key, descending user id among ties — cut
    /// to the conventional page of twenty.
    pub fn ranking<D: GenkaiPointDatabase>(&self, db: &D, by_duration: bool) -> (r: Result<
        Vec<UserStat>,
        GenkaiError,
    >)
        requires
            db.inv(),
        ensures
            r matches Ok(v) ==> exists|stats: Seq<UserStat>, sorted: Seq<UserStat>| #![auto]
                stats_ok::<D::Policy>(db.sessions(), stats) && sorted.to_multiset()
                    == stats.to_multiset() && sorted_asc(sorted, by_duration) && is_page_of(
                    v@,
                    sorted,
                ),
    {
        let stats = match db.get_all_users_stats() {
            Ok(v) => v,
            Err(e) => {
                return Err(e);
            },
        };
        let ghost stats0 = stats@;
        let sorted = sort_stats(stats, by_duration);
        let ghost sorted0 = sorted@;
        let mut page: Vec<UserStat> = Vec::new();
        let mut i: usize = sorted.len();
        while i > 0 && page.len() < 20
            invariant
                i <= sorted@.len(),
                sorted@ == sorted0,
                page@.len() == sorted@.len() - i,
                page@.len() <= 20,
                forall|k: int|
                    0 <= k < page@.len() ==> page@[k] == sorted@[sorted@.len() - 1 - k],
            decreases i,
        {
            i = i - 1;
            page.push(sorted[i]);
        }
        proof {
            assert(is_page_of(page@, sorted0));
        }
        Ok(page)
    }

    /// The per-user summary behind the `show` command: cumulative points
    /// and total closed voice time in seconds, both saturating at
    /// `u64::MAX`.
    pub fn user_summary<D: GenkaiPointDatabase>(&self, db: &D, user_id: u64) -> (r: Result<
        (u64, u64),
        GenkaiError,
    >)
        requires
            db.inv(),
        ensures
            r matches Ok(p) ==> p.0 == clamp_u64(
                points_sum::<D::Policy>(closed_of(db.sessions(), user_id)),
            ) && p.1 == clamp_u64(duration_sum(closed_of(db.sessions(), user_id))),
    {
        let sessions = match db.get_users_all_sessions(user_id) {
            Ok(v) => v,
            Err(e) => {
                return Err(e);
            },
        };
        proof {
            db.inv_implies_model();
            lemma_closed_of_wf(db.sessions(), user_id);
        }
        let agg = aggregate::<D::Policy>(&sessions);
        Ok(agg)
    }
}

/// Between `base` and `post`, user `u`'s one stored open session — the
/// single, well-formed open record of theirs that `base` holds — was
/// closed at `now` and appended to their closed list, which otherwise is
/// unchanged.
pub open spec fn reconciled_close(post: Seq<Session>, base: Seq<Session>, u: u64, now: u64) -> bool {
    exists|s: Session| #![auto]
        s.user_id == u && s.is_open() && s.wf() && base.contains(s) && opens_of(base, u) == seq![s]
            && closed_of(post, u) == closed_of(base, u).push(close_at(s, now))
}

/// A session closed by reconciliation is recorded as one more closed
/// session whose end lies at or after the reconciliation time.
pub proof fn lemma_reconciled_close_time(post: Seq<Session>, base: Seq<Session>, u: u64, now: u64)
    requires
        reconciled_close(post, base, u, now),
    ensures
        closed_of(post, u).len() == closed_of(base, u).len() + 1,
        closed_of(post, u).last().left_at is Some,
        closed_of(post, u).last().left_at->0 >= now,
{
    let s = choose|s: Session| #![auto]
        s.user_id == u && s.is_open() && s.wf() && base.contains(s) && opens_of(base, u) == seq![s]
            && closed_of(post, u) == closed_of(base, u).push(close_at(s, now));
    assert(closed_of(post, u).last() == close_at(s, now));
}

} // verus!
