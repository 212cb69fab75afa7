use vstd::prelude::*;

use crate::model::{
    all_closed_wf, clamp_u64, duration_sum, points_sum, Scoring, Session, UserStat,
};

verus! {

/// Errors surfaced by session stores and the handlers above them.
#[derive(Clone, Copy, Debug, PartialEq, Eq, Structural)]
pub enum GenkaiError {
    /// The underlying storage failed.
    Storage,
    /// A display name could not be resolved.
    Lookup,
    /// `close_session` was called for a user with no open session:
    /// a coordination bug, not a user-facing condition.
    NoOpenSession,
}

/// How many sessions of `s` are open sessions of user `u`.
pub open spec fn open_count(s: Seq<Session>, u: u64) -> nat
    decreases s.len(),
{
    if s.len() == 0 {
        0
    } else {
        open_count(s.drop_last(), u) + (if s.last().user_id == u && s.last().is_open() {
            1nat
        } else {
            0nat
        })
    }
}

/// Whether user `u` has an open session in `s`.
pub open spec fn has_open(s: Seq<Session>, u: u64) -> bool {
    open_count(s, u) > 0
}

/// The closed sessions of user `u`, in the order of `s`.
pub open spec fn closed_of(s: Seq<Session>, u: u64) -> Seq<Session>
    decreases s.len(),
{
    if s.len() == 0 {
        Seq::empty()
    } else if s.last().user_id == u && !s.last().is_open() {
        closed_of(s.drop_last(), u).push(s.last())
    } else {
        closed_of(s.drop_last(), u)
    }
}

/// The open sessions of user `u`, in the order of `s` (under the store
/// invariant there is at most one).
pub open spec fn opens_of(s: Seq<Session>, u: u64) -> Seq<Session>
    decreases s.len(),
{
    if s.len() == 0 {
        Seq::empty()
    } else if s.last().user_id == u && s.last().is_open() {
        opens_of(s.drop_last(), u).push(s.last())
    } else {
        opens_of(s.drop_last(), u)
    }
}

/// Every session of the sequence is well formed.
pub open spec fn all_wf(s: Seq<Session>) -> bool {
    forall|i: int| 0 <= i < s.len() ==> s[i].wf()
}

/// The central store invariant: every record is well formed and, for every
/// user, at most one session is open.
pub open spec fn store_inv(s: Seq<Session>) -> bool {
    all_wf(s) && forall|u: u64| open_count(s, u) <= 1
}

/// In insertion order, a user's open session can only be their most recent
/// record: nothing of theirs is stored after it.
pub open spec fn open_is_latest(s: Seq<Session>) -> bool {
    forall|i: int, j: int|
        0 <= i < j < s.len() && s[i].user_id == s[j].user_id ==> !s[i].is_open()
}

/// `s` closed at `t`, clamped so that a session never ends before it starts.
pub open spec fn close_at(s: Session, t: u64) -> Session {
    Session {
        user_id: s.user_id,
        joined_at: s.joined_at,
        left_at: Some(if t >= s.joined_at { t } else { s.joined_at }),
    }
}

/// Between `base` and `post`, user `u`'s one stored open session — and
/// nothing else — was closed in place at `left_at` (clamped to its own
/// start), and so appended to the user's closed list.
pub open spec fn closed_in_place(post: Seq<Session>, base: Seq<Session>, u: u64, left_at: u64) -> bool {
    exists|i: int| #![auto]
        0 <= i < base.len() && base[i].user_id == u && base[i].is_open() && opens_of(base, u)
            == seq![base[i]] && post == base.update(i, close_at(base[i], left_at)) && closed_of(
            post,
            u,
        ) == closed_of(base, u).push(close_at(base[i], left_at))
}

/// The stat entry that the sessions `s` prescribe for user `u`.
pub open spec fn stat_for<P: Scoring>(s: Seq<Session>, u: u64) -> UserStat {
    UserStat {
        user_id: u,
        genkai_point: clamp_u64(points_sum::<P>(closed_of(s, u))),
        total_vc_duration: clamp_u64(duration_sum(closed_of(s, u))),
    }
}

/// `out` holds exactly one correct stat entry for every user with at least
/// one closed session in `s`, and nothing else.
pub open spec fn stats_ok<P: Scoring>(s: Seq<Session>, out: Seq<UserStat>) -> bool {
    &&& forall|i: int| 0 <= i < out.len() ==> out[i] == stat_for::<P>(s, out[i].user_id)
    &&& forall|i: int, j: int| 0 <= i < j < out.len() ==> out[i].user_id != out[j].user_id
    &&& forall|u: u64|
        closed_of(s, u).len() > 0 <==> exists|i: int|
            0 <= i < out.len() && #[trigger] out[i].user_id == u
}

/// The central invariant, as every caller sees it: however many store
/// operations ran — each one requires and preserves `store_inv` — a user
/// never has more than one open session.
pub proof fn lemma_at_most_one_open(s: Seq<Session>, u: u64)
    requires
        store_inv(s),
    ensures
        open_count(s, u) <= 1,
{
}

/// Idempotence of session creation: opening a session for a user without
/// one gives them exactly one open session, so — by the create contract —
/// an immediately repeated create is answered with `false` and changes
/// nothing.
pub proof fn lemma_create_idempotent(s: Seq<Session>, user_id: u64, joined_at: u64)
    requires
        !has_open(s, user_id),
    ensures
        open_count(s.push((Session { user_id, joined_at, left_at: None })), user_id) == 1,
        has_open(s.push((Session { user_id, joined_at, left_at: None })), user_id),
{
    lemma_push_one(s, Session { user_id, joined_at, left_at: None }, user_id);
}

/// A user's open list is as long as their open count.
pub proof fn lemma_opens_len(s: Seq<Session>, u: u64)
    ensures
        opens_of(s, u).len() == open_count(s, u),
    decreases s.len(),
{
    if s.len() > 0 {
        lemma_opens_len(s.drop_last(), u);
    }
}

/// A user's open list holds only their own open sessions, each a record
/// of `s`; under `all_wf` each is well formed.
pub proof fn lemma_opens_of_wf(s: Seq<Session>, u: u64)
    ensures
        forall|k: int| #![trigger opens_of(s, u)[k]]
            0 <= k < opens_of(s, u).len() ==> opens_of(s, u)[k].user_id == u
                && opens_of(s, u)[k].is_open() && s.contains(opens_of(s, u)[k]) && (all_wf(s)
                ==> opens_of(s, u)[k].wf()),
    decreases s.len(),
{
    if s.len() > 0 {
        lemma_opens_of_wf(s.drop_last(), u);
        let o = opens_of(s, u);
        let od = opens_of(s.drop_last(), u);
        assert forall|k: int| #![trigger opens_of(s, u)[k]]
            0 <= k < o.len() implies o[k].user_id == u && o[k].is_open()
            && s.contains(o[k]) && (all_wf(s) ==> o[k].wf()) by {
            assert(forall|m: int| 0 <= m < s.drop_last().len() ==> s.drop_last()[m] == s[m]);
            assert(all_wf(s) ==> all_wf(s.drop_last()));
            if s.last().user_id == u && s.last().is_open() && k == o.len() - 1 {
                assert(o == od.push(s.last()));
                assert(o[k] == s[s.len() - 1]);
                assert(s.contains(o[k])) by {
                    assert(s[s.len() - 1] == o[k]);
                }
            } else {
                if s.last().user_id == u && s.last().is_open() {
                    assert(o == od.push(s.last()));
                    assert(k < od.len());
                } else {
                    assert(o == od);
                }
                assert(o[k] == od[k]);
                assert(od[k].user_id == u && od[k].is_open());
                assert(s.drop_last().contains(od[k]));
                let m = choose|m: int|
                    0 <= m < s.drop_last().len() && s.drop_last()[m] == od[k];
                assert(s[m] == od[k]);
                assert(s.contains(o[k])) by {
                    assert(s[m] == o[k]);
                }
                assert(all_wf(s) ==> od[k].wf());
            }
        }
    }
}

/// A user has an open session exactly when some record of theirs is open.
pub proof fn lemma_open_count_iff(s: Seq<Session>, u: u64)
    ensures
        has_open(s, u) <==> exists|i: int|
            0 <= i < s.len() && #[trigger] s[i].user_id == u && s[i].is_open(),
    decreases s.len(),
{
    if s.len() > 0 {
        lemma_open_count_iff(s.drop_last(), u);
        if has_open(s, u) {
            if s.last().user_id == u && s.last().is_open() {
                assert(s[s.len() - 1].user_id == u && s[s.len() - 1].is_open());
            } else {
                let i = choose|i: int|
                    0 <= i < s.drop_last().len() && #[trigger] s.drop_last()[i].user_id == u
                        && s.drop_last()[i].is_open();
                assert(s[i].user_id == u && s[i].is_open());
            }
        }
        if exists|i: int| 0 <= i < s.len() && #[trigger] s[i].user_id == u && s[i].is_open() {
            let i = choose|i: int|
                0 <= i < s.len() && #[trigger] s[i].user_id == u && s[i].is_open();
            if i < s.len() - 1 {
                assert(s.drop_last()[i].user_id == u && s.drop_last()[i].is_open());
            }
        }
    }
}

/// Two distinct open records of the same user make the open count at least 2.
pub proof fn lemma_two_opens(s: Seq<Session>, i: int, j: int, u: u64)
    requires
        0 <= i < j < s.len(),
        s[i].user_id == u,
        s[i].is_open(),
        s[j].user_id == u,
        s[j].is_open(),
    ensures
        open_count(s, u) >= 2,
    decreases s.len(),
{
    if j == s.len() - 1 {
        lemma_open_count_iff(s.drop_last(), u);
        assert(s.drop_last()[i].user_id == u && s.drop_last()[i].is_open());
    } else {
        assert(s.drop_last()[i] == s[i]);
        assert(s.drop_last()[j] == s[j]);
        lemma_two_opens(s.drop_last(), i, j, u);
    }
}

/// Appending one session changes only that user's counts, and only that
/// user's closed list when the session is closed.
pub proof fn lemma_push_one(s: Seq<Session>, x: Session, u: u64)
    ensures
        open_count(s.push(x), u) == open_count(s, u) + (if x.user_id == u && x.is_open() {
            1nat
        } else {
            0nat
        }),
        closed_of(s.push(x), u) == (if x.user_id == u && !x.is_open() {
            closed_of(s, u).push(x)
        } else {
            closed_of(s, u)
        }),
        opens_of(s.push(x), u) == (if x.user_id == u && x.is_open() {
            opens_of(s, u).push(x)
        } else {
            opens_of(s, u)
        }),
{
    assert(s.push(x).drop_last() =~= s);
    assert(s.push(x).last() == x);
}

/// Replacing a record with one of another user leaves that user's view alone.
pub proof fn lemma_update_other(s: Seq<Session>, i: int, y: Session, u: u64)
    requires
        0 <= i < s.len(),
        s[i].user_id != u,
        y.user_id != u,
    ensures
        open_count(s.update(i, y), u) == open_count(s, u),
        closed_of(s.update(i, y), u) == closed_of(s, u),
        opens_of(s.update(i, y), u) == opens_of(s, u),
    decreases s.len(),
{
    if i == s.len() - 1 {
        assert(s.update(i, y).drop_last() =~= s.drop_last());
        assert(s.update(i, y).last() == y);
    } else {
        assert(s.update(i, y).drop_last() =~= s.drop_last().update(i, y));
        assert(s.drop_last()[i] == s[i]);
        lemma_update_other(s.drop_last(), i, y, u);
        assert(s.update(i, y).last() == s.last());
    }
}

/// Closing a user's open record — their most recent one — removes their one
/// open session and appends the closed record to their closed list.
pub proof fn lemma_update_close(s: Seq<Session>, i: int, y: Session)
    requires
        0 <= i < s.len(),
        s[i].is_open(),
        forall|k: int| i < k < s.len() ==> s[k].user_id != s[i].user_id,
        y.user_id == s[i].user_id,
        !y.is_open(),
    ensures
        open_count(s.update(i, y), s[i].user_id) == open_count(s, s[i].user_id) - 1,
        closed_of(s.update(i, y), s[i].user_id) == closed_of(s, s[i].user_id).push(y),
        opens_of(s, s[i].user_id).len() >= 1,
        opens_of(s, s[i].user_id).last() == s[i],
        opens_of(s.update(i, y), s[i].user_id) == opens_of(s, s[i].user_id).drop_last(),
    decreases s.len(),
{
    let u = s[i].user_id;
    if i == s.len() - 1 {
        assert(s.update(i, y).drop_last() =~= s.drop_last());
        assert(s.update(i, y).last() == y);
        assert(s.last() == s[i]);
        assert(opens_of(s, u) == opens_of(s.drop_last(), u).push(s[i]));
        assert(opens_of(s, u).drop_last() =~= opens_of(s.drop_last(), u));
    } else {
        assert(s.update(i, y).drop_last() =~= s.drop_last().update(i, y));
        assert(s.drop_last()[i] == s[i]);
        assert(forall|k: int|
            i < k < s.drop_last().len() ==> s.drop_last()[k].user_id != u);
        lemma_update_close(s.drop_last(), i, y);
        assert(s.update(i, y).last() == s.last());
        assert(s.last().user_id != u);
    }
}

/// A user's closed list holds only their own closed, well-formed sessions.
pub proof fn lemma_closed_of_wf(s: Seq<Session>, u: u64)
    requires
        all_wf(s),
    ensures
        all_closed_wf(closed_of(s, u)),
        forall|k: int| 0 <= k < closed_of(s, u).len() ==> closed_of(s, u)[k].user_id == u,
    decreases s.len(),
{
    if s.len() > 0 {
        assert(forall|k: int| 0 <= k < s.drop_last().len() ==> s.drop_last()[k].wf());
        lemma_closed_of_wf(s.drop_last(), u);
        if s.last().user_id == u && !s.last().is_open() {
            let c = closed_of(s, u);
            let cd = closed_of(s.drop_last(), u);
            assert(c == cd.push(s.last()));
            assert(s[s.len() - 1].wf());
            assert(forall|k: int| 0 <= k < cd.len() ==> c[k] == cd[k]);
        }
    }
}

/// The durable session store the coordinator drives: CRUD over sessions and
/// the per-user open-session index, of which the store is the sole owner.
/// Every operation may fail with a storage error; a failed operation must
/// leave the stored sessions as they were.
pub trait GenkaiPointDatabase: Sized {
    /// The scoring policy applied by `get_all_users_stats`.
    type Policy: Scoring;

    /// The sessions the store holds, in insertion order.
    spec fn sessions(&self) -> Seq<Session>;

    /// The store's internal well-formedness.
    spec fn inv(&self) -> bool;

    /// A well-formed store upholds the central invariant: at most one open
    /// session per user, and no session ends before it starts.
    proof fn inv_implies_model(&self)
        requires
            self.inv(),
        ensures
            store_inv(self.sessions()),
    ;

    /// Creates a new open session for the user unless one already exists;
    /// returns whether it was created. The expected "already open" answer is
    /// the `Ok(false)` no-op, deliberately not an error.
    fn create_new_session(&mut self, user_id: u64, joined_at: u64) -> (r: Result<
        bool,
        GenkaiError,
    >)
        requires
            old(self).inv(),
        ensures
            final(self).inv(),
            r matches Ok(true) ==> !has_open(old(self).sessions(), user_id) && final(self).sessions()
                == old(self).sessions().push((Session { user_id, joined_at, left_at: None })),
            r matches Ok(false) ==> has_open(old(self).sessions(), user_id) && final(self).sessions()
                == old(self).sessions(),
            r is Err ==> final(self).sessions() == old(self).sessions(),
            r is Ok ==> open_count(final(self).sessions(), user_id) == 1,
            r matches Ok(true) ==> opens_of(final(self).sessions(), user_id) == seq![
                (Session { user_id, joined_at, left_at: None }),
            ],
            forall|u: u64|
                u != user_id ==> open_count(final(self).sessions(), u) == open_count(
                    old(self).sessions(),
                    u,
                ) && opens_of(final(self).sessions(), u) == opens_of(old(self).sessions(), u),
            forall|u: u64| #[trigger]
                closed_of(final(self).sessions(), u) == closed_of(old(self).sessions(), u),
    ;

    /// Whether the user currently has an open session.
    fn unclosed_session_exists(&self, user_id: u64) -> (r: Result<bool, GenkaiError>)
        requires
            self.inv(),
        ensures
            r matches Ok(b) ==> b == has_open(self.sessions(), user_id),
    ;

    /// Closes the user's one stored open session — in place — at
    /// `left_at`, clamped so that the session never ends before it starts.
    /// Every other record is left exactly as it was. Calling this with no
    /// open session is answered with an error and changes nothing.
    fn close_session(&mut self, user_id: u64, left_at: u64) -> (r: Result<(), GenkaiError>)
        requires
            old(self).inv(),
        ensures
            final(self).inv(),
            !has_open(old(self).sessions(), user_id) ==> r is Err,
            r is Err ==> final(self).sessions() == old(self).sessions(),
            r is Ok ==> has_open(old(self).sessions(), user_id),
            r is Ok ==> open_count(final(self).sessions(), user_id) == 0,
            r is Ok ==> opens_of(final(self).sessions(), user_id) == Seq::<Session>::empty(),
            r is Ok ==> closed_in_place(
                final(self).sessions(),
                old(self).sessions(),
                user_id,
                left_at,
            ),
            forall|u: u64|
                u != user_id ==> open_count(final(self).sessions(), u) == open_count(
                    old(self).sessions(),
                    u,
                ) && closed_of(final(self).sessions(), u) == closed_of(old(self).sessions(), u)
                    && opens_of(final(self).sessions(), u) == opens_of(old(self).sessions(), u),
    ;

    /// The user's closed sessions, in insertion order. The open session, if
    /// any, is excluded: only closed sessions have a defined point value.
    fn get_users_all_sessions(&self, user_id: u64) -> (r: Result<Vec<Session>, GenkaiError>)
        requires
            self.inv(),
        ensures
            r matches Ok(v) ==> v@ == closed_of(self.sessions(), user_id),
    ;

    /// Every user who currently has an open session, without duplicates.
    fn get_all_users_who_has_unclosed_session(&self) -> (r: Result<Vec<u64>, GenkaiError>)
        requires
            self.inv(),
        ensures
            r matches Ok(v) ==> v@.no_duplicates() && forall|u: u64|
                v@.contains(u) <==> has_open(self.sessions(), u),
    ;

    /// One stat entry per user with at least one closed session, scored
    /// under `Self::Policy`.
    fn get_all_users_stats(&self) -> (r: Result<Vec<UserStat>, GenkaiError>)
        requires
            self.inv(),
        ensures
            r matches Ok(v) ==> stats_ok::<Self::Policy>(self.sessions(), v@),
    ;
}

/// Whether `v` holds `x`.
pub fn contains_u64(v: &Vec<u64>, x: u64) -> (b: bool)
    ensures
        b == v@.contains(x),
{
    let mut i: usize = 0;
    while i < v.len()
        invariant
            i <= v@.len(),
            forall|k: int| 0 <= k < i as int ==> v@[k] != x,
        decreases v@.len() - i,
    {
        if v[i] == x {
            assert(v@[i as int] == x);
            return true;
        }
        i = i + 1;
    }
    false
}

/// Index of some open session of the user, if one exists.
fn find_open(rows: &Vec<Session>, user_id: u64) -> (r: Option<usize>)
    ensures
        match r {
            Some(i) => i < rows@.len() && rows@[i as int].user_id == user_id
                && rows@[i as int].is_open(),
            None => forall|k: int|
                0 <= k < rows@.len() ==> !(rows@[k].user_id == user_id && rows@[k].is_open()),
        },
{
    let mut i: usize = 0;
    while i < rows.len()
        invariant
            i <= rows@.len(),
            forall|k: int|
                0 <= k < i as int ==> !(rows@[k].user_id == user_id && rows@[k].is_open()),
        decreases rows@.len() - i,
    {
        let s = rows[i];
        if s.user_id == user_id && s.left_at.is_none() {
            return Some(i);
        }
        i = i + 1;
    }
    None
}

/// An in-memory session store: the reference backend, also used by tests.
/// It appends sessions to one insertion-ordered table, like rows of the
/// persistent layout the store interface assumes.
pub struct MemoryStore<P: Scoring> {
    rows: Vec<Session>,
    /// The injected scoring policy under which stats are computed.
    pub policy: P,
}

impl<P: Scoring> MemoryStore<P> {
    /// An empty store under the given scoring policy.
    pub fn new(policy: P) -> (r: Self)
        ensures
            r.inv(),
            r.sessions() == Seq::<Session>::empty(),
    {
        let r = MemoryStore { rows: Vec::new(), policy };
        proof {
            assert(r.rows@ =~= Seq::<Session>::empty());
        }
        r
    }

    /// The user's closed sessions, in insertion order.
    fn closed_rows(&self, user_id: u64) -> (v: Vec<Session>)
        ensures
            v@ == closed_of(self.rows@, user_id),
    {
        let mut v: Vec<Session> = Vec::new();
        let mut i: usize = 0;
        while i < self.rows.len()
            invariant
                i <= self.rows@.len(),
                v@ == closed_of(self.rows@.subrange(0, i as int), user_id),
            decreases self.rows@.len() - i,
        {
            let s = self.rows[i];
            proof {
                let pre = self.rows@.subrange(0, i as int);
                let ext = self.rows@.subrange(0, i + 1 as int);
                assert(ext.drop_last() =~= pre);
                assert(ext.last() == self.rows@[i as int]);
            }
            if s.left_at.is_some() && s.user_id == user_id {
                v.push(s);
            }
            i = i + 1;
        }
        proof {
            assert(self.rows@.subrange(0, self.rows@.len() as int) =~= self.rows@);
        }
        v
    }
}

// Nothing in memory can fail, so beyond the interface contract every
// method here promises success — except `close_session`, which owes the
// no-open-session error and nothing else.
impl<P: Scoring> GenkaiPointDatabase for MemoryStore<P> {
    type Policy = P;

    closed spec fn sessions(&self) -> Seq<Session> {
        self.rows@
    }

    closed spec fn inv(&self) -> bool {
        store_inv(self.rows@) && open_is_latest(self.rows@)
    }

    proof fn inv_implies_model(&self) {
    }

    fn create_new_session(&mut self, user_id: u64, joined_at: u64) -> (r: Result<
        bool,
        GenkaiError,
    >)
        ensures
            r is Ok,
    {
        proof {
            lemma_open_count_iff(self.rows@, user_id);
        }
        match find_open(&self.rows, user_id) {
            Some(_) => Ok(false),
            None => {
                let ghost pre = self.rows@;
                let x = Session { user_id, joined_at, left_at: None };
                self.rows.push(x);
                proof {
                    assert forall|u: u64| #[trigger]
                        closed_of(self.rows@, u) == closed_of(pre, u) by {
                        lemma_push_one(pre, x, u);
                    }
                    assert forall|u: u64| u != user_id implies open_count(self.rows@, u)
                        == open_count(pre, u) && opens_of(self.rows@, u) == opens_of(pre, u) by {
                        lemma_push_one(pre, x, u);
                    }
                    lemma_push_one(pre, x, user_id);
                    assert(open_count(self.rows@, user_id) == 1);
                    lemma_opens_len(pre, user_id);
                    assert(opens_of(pre, user_id) =~= Seq::<Session>::empty());
                    assert(opens_of(self.rows@, user_id) =~= seq![x]);
                    assert(all_wf(self.rows@)) by {
                        assert(forall|i: int| 0 <= i < pre.len() ==> self.rows@[i] == pre[i]);
                    }
                    assert(open_is_latest(self.rows@)) by {
                        assert(forall|i: int| 0 <= i < pre.len() ==> self.rows@[i] == pre[i]);
                        assert(forall|i: int|
                            0 <= i < pre.len() && pre[i].user_id == user_id ==> !pre[i].is_open());
                    }
                    assert forall|u: u64| open_count(self.rows@, u) <= 1 by {
                        if u != user_id {
                            lemma_push_one(pre, x, u);
                            assert(open_count(pre, u) <= 1);
                        }
                    }
                    assert(store_inv(self.rows@));
                    assert(self.inv());
                }
                Ok(true)
            },
        }
    }

    fn unclosed_session_exists(&self, user_id: u64) -> (r: Result<bool, GenkaiError>)
        ensures
            r is Ok,
    {
        proof {
            lemma_open_count_iff(self.rows@, user_id);
        }
        match find_open(&self.rows, user_id) {
            Some(_) => Ok(true),
            None => Ok(false),
        }
    }

    fn close_session(&mut self, user_id: u64, left_at: u64) -> (r: Result<(), GenkaiError>)
        ensures
            r is Ok <==> has_open(old(self).sessions(), user_id),
            r is Err ==> r == Err::<(), GenkaiError>(GenkaiError::NoOpenSession),
    {
        proof {
            lemma_open_count_iff(self.rows@, user_id);
        }
        match find_open(&self.rows, user_id) {
            None => Err(GenkaiError::NoOpenSession),
            Some(i) => {
                let ghost pre = self.rows@;
                let s = self.rows[i];
                let l = if left_at >= s.joined_at {
                    left_at
                } else {
                    s.joined_at
                };
                let y = Session { user_id, joined_at: s.joined_at, left_at: Some(l) };
                self.rows.set(i, y);
                proof {
                    assert(y == close_at(s, left_at));
                    assert forall|k: int| (i as int) < k < pre.len() implies pre[k].user_id
                        != user_id by {
                        if pre[k].user_id == user_id {
                            assert(!pre[i as int].is_open());
                        }
                    }
                    lemma_update_close(pre, i as int, y);
                    assert forall|u: u64| u != user_id implies open_count(self.rows@, u)
                        == open_count(pre, u) && closed_of(self.rows@, u) == closed_of(pre, u)
                        && opens_of(self.rows@, u) == opens_of(pre, u) by {
                        lemma_update_other(pre, i as int, y, u);
                    }
                    assert(open_count(pre, user_id) == 1);
                    assert(pre.contains(s));
                    lemma_opens_len(pre, user_id);
                    assert(opens_of(pre, user_id).len() == 1);
                    assert(opens_of(pre, user_id) =~= seq![pre[i as int]]);
                    assert(opens_of(self.rows@, user_id) =~= Seq::<Session>::empty());
                    assert(0 <= (i as int) && (i as int) < pre.len() && pre[i as int].user_id == user_id
                        && pre[i as int].is_open() && opens_of(pre, user_id) == seq![
                        pre[i as int],
                    ] && self.rows@ == pre.update(i as int, close_at(pre[i as int], left_at))
                        && closed_of(self.rows@, user_id) == closed_of(pre, user_id).push(
                        close_at(pre[i as int], left_at),
                    ));
                    assert(closed_in_place(self.rows@, pre, user_id, left_at));
                    assert(all_wf(self.rows@)) by {
                        assert(forall|k: int|
                            0 <= k < pre.len() && k != i as int ==> self.rows@[k] == pre[k]);
                        assert(y.wf());
                    }
                    assert(open_is_latest(self.rows@)) by {
                        assert(forall|k: int|
                            0 <= k < pre.len() && k != i as int ==> self.rows@[k] == pre[k]);
                    }
                    assert forall|u: u64| open_count(self.rows@, u) <= 1 by {
                        if u != user_id {
                            lemma_update_other(pre, i as int, y, u);
                            assert(open_count(pre, u) <= 1);
                        }
                    }
                    assert(store_inv(self.rows@));
                    assert(self.inv());
                }
                Ok(())
            },
        }
    }

    fn get_users_all_sessions(&self, user_id: u64) -> (r: Result<Vec<Session>, GenkaiError>)
        ensures
            r is Ok,
    {
        Ok(self.closed_rows(user_id))
    }

    fn get_all_users_who_has_unclosed_session(&self) -> (r: Result<Vec<u64>, GenkaiError>)
        ensures
            r is Ok,
    {
        let mut out: Vec<u64> = Vec::new();
        let mut i: usize = 0;
        while i < self.rows.len()
            invariant
                i <= self.rows@.len(),
                store_inv(self.rows@),
                forall|u: u64|
                    out@.contains(u) <==> exists|k: int|
                        0 <= k < i as int && #[trigger] self.rows@[k].user_id == u
                            && self.rows@[k].is_open(),
                out@.no_duplicates(),
            decreases self.rows@.len() - i,
        {
            let s = self.rows[i];
            if s.left_at.is_none() {
                let ghost pre_out = out@;
                proof {
                    if pre_out.contains(s.user_id) {
                        let k = choose|k: int|
                            0 <= k < i as int && #[trigger] self.rows@[k].user_id == s.user_id
                                && self.rows@[k].is_open();
                        lemma_two_opens(self.rows@, k, i as int, s.user_id);
                    }
                }
                out.push(s.user_id);
                proof {
                    assert forall|u: u64| out@.contains(u) implies exists|k: int|
                        0 <= k < (i + 1) as int && #[trigger] self.rows@[k].user_id == u
                            && self.rows@[k].is_open() by {
                        if u == s.user_id {
                            assert(self.rows@[i as int].user_id == u
                                && self.rows@[i as int].is_open());
                        } else {
                            let m = choose|m: int| 0 <= m < pre_out.len() && pre_out[m] == u;
                            assert(pre_out.contains(u));
                        }
                    }
                    assert forall|u: u64|
                        (exists|k: int|
                            0 <= k < (i + 1) as int && #[trigger] self.rows@[k].user_id == u
                                && self.rows@[k].is_open()) implies out@.contains(u) by {
                        let k = choose|k: int|
                            0 <= k < (i + 1) as int && #[trigger] self.rows@[k].user_id == u
                                && self.rows@[k].is_open();
                        if k < i as int {
                            assert(pre_out.contains(u));
                            let m = choose|m: int| 0 <= m < pre_out.len() && pre_out[m] == u;
                            assert(out@[m] == u);
                        } else {
                            assert(out@[out@.len() - 1] == u);
                        }
                    }
                }
            } else {
                proof {
                    assert forall|u: u64| out@.contains(u) implies exists|k: int|
                        0 <= k < (i + 1) as int && #[trigger] self.rows@[k].user_id == u
                            && self.rows@[k].is_open() by {
                        let k = choose|k: int|
                            0 <= k < i as int && #[trigger] self.rows@[k].user_id == u
                                && self.rows@[k].is_open();
                        assert(0 <= k < (i + 1) as int);
                    }
                }
            }
            i = i + 1;
        }
        proof {
            assert forall|u: u64| out@.contains(u) implies has_open(self.rows@, u) by {
                lemma_open_count_iff(self.rows@, u);
            }
            assert forall|u: u64| has_open(self.rows@, u) implies out@.contains(u) by {
                lemma_open_count_iff(self.rows@, u);
            }
        }
        Ok(out)
    }

    fn get_all_users_stats(&self) -> (r: Result<Vec<UserStat>, GenkaiError>)
        ensures
            r is Ok,
    {
        let mut uids: Vec<u64> = Vec::new();
        let mut i: usize = 0;
        while i < self.rows.len()
            invariant
                i <= self.rows@.len(),
                uids@.no_duplicates(),
                forall|u: u64| #[trigger]
                    uids@.contains(u) <==> closed_of(
                        self.rows@.subrange(0, i as int),
                        u,
                    ).len() > 0,
            decreases self.rows@.len() - i,
        {
            let s = self.rows[i];
            let ghost pre = self.rows@.subrange(0, i as int);
            let ghost ext = self.rows@.subrange(0, i + 1 as int);
            proof {
                assert(ext.drop_last() =~= pre);
                assert(ext.last() == self.rows@[i as int]);
            }
            let is_closed = s.left_at.is_some();
            let already = contains_u64(&uids, s.user_id);
            if is_closed && !already {
                let ghost pre_uids = uids@;
                uids.push(s.user_id);
                proof {
                    assert(uids@.last() == s.user_id);
                    assert forall|u: u64| #[trigger] uids@.contains(u) implies closed_of(
                        ext,
                        u,
                    ).len() > 0 by {
                        if u == s.user_id {
                            assert(closed_of(ext, u) == closed_of(pre, u).push(s));
                        } else {
                            let m = choose|m: int| 0 <= m < uids@.len() && uids@[m] == u;
                            assert(m < pre_uids.len());
                            assert(pre_uids[m] == u);
                            assert(pre_uids.contains(u));
                            assert(closed_of(pre, u).len() > 0);
                        }
                    }
                    assert forall|u: u64| closed_of(ext, u).len() > 0 implies #[trigger]
                        uids@.contains(u) by {
                        if u == s.user_id {
                            assert(uids@[uids@.len() - 1] == u);
                        } else {
                            assert(closed_of(ext, u) == closed_of(pre, u));
                            assert(pre_uids.contains(u));
                            let m = choose|m: int| 0 <= m < pre_uids.len() && pre_uids[m] == u;
                            assert(uids@[m] == u);
                        }
                    }
                    assert forall|a: int, b: int|
                        0 <= a < b < uids@.len() implies uids@[a] != uids@[b] by {
                        if b == uids@.len() - 1 {
                            assert(uids@[a] == pre_uids[a]);
                            if pre_uids[a] == s.user_id {
                                assert(pre_uids.contains(s.user_id));
                            }
                        } else {
                            assert(uids@[a] == pre_uids[a]);
                            assert(uids@[b] == pre_uids[b]);
                        }
                    }
                }
            } else {
                proof {
                    assert forall|u: u64| #[trigger] uids@.contains(u) implies closed_of(
                        ext,
                        u,
                    ).len() > 0 by {
                        assert(closed_of(pre, u).len() > 0);
                        if s.user_id == u && !s.is_open() {
                            assert(closed_of(ext, u) == closed_of(pre, u).push(s));
                        } else {
                            assert(closed_of(ext, u) == closed_of(pre, u));
                        }
                    }
                    assert forall|u: u64| closed_of(ext, u).len() > 0 implies #[trigger]
                        uids@.contains(u) by {
                        if s.user_id == u && is_closed {
                            assert(uids@.contains(s.user_id));
                        } else {
                            assert(closed_of(ext, u) == closed_of(pre, u));
                        }
                    }
                }
            }
            i = i + 1;
        }
        proof {
            assert(self.rows@.subrange(0, self.rows@.len() as int) =~= self.rows@);
        }
        let mut out: Vec<UserStat> = Vec::new();
        let mut k: usize = 0;
        while k < uids.len()
            invariant
                k <= uids@.len(),
                uids@.no_duplicates(),
                store_inv(self.rows@),
                out@.len() == k as int,
                forall|u: u64| #[trigger]
                    uids@.contains(u) <==> closed_of(self.rows@, u).len() > 0,
                forall|m: int| 0 <= m < k as int ==> #[trigger] out@[m].user_id == uids@[m],
                forall|m: int|
                    0 <= m < k as int ==> #[trigger] out@[m] == stat_for::<P>(
                        self.rows@,
                        uids@[m],
                    ),
            decreases uids@.len() - k,
        {
            let u = uids[k];
            let cs = self.closed_rows(u);
            proof {
                lemma_closed_of_wf(self.rows@, u);
            }
            let agg = crate::model::aggregate::<P>(&cs);
            out.push(UserStat { user_id: u, genkai_point: agg.0, total_vc_duration: agg.1 });
            k = k + 1;
        }
        proof {
            assert forall|u: u64|
                closed_of(self.rows@, u).len() > 0 implies exists|i2: int|
                    0 <= i2 < out@.len() && #[trigger] out@[i2].user_id == u by {
                assert(uids@.contains(u));
                let m = choose|m: int| 0 <= m < uids@.len() && uids@[m] == u;
                assert(out@[m].user_id == u);
            }
            assert forall|i2: int, j2: int| 0 <= i2 < j2 < out@.len() implies out@[i2].user_id
                != out@[j2].user_id by {
                assert(out@[i2].user_id == uids@[i2]);
                assert(out@[j2].user_id == uids@[j2]);
            }
            assert forall|i2: int|
                0 <= i2 < out@.len() implies closed_of(self.rows@, out@[i2].user_id).len() > 0 by {
                assert(uids@.contains(out@[i2].user_id));
            }
        }
        Ok(out)
    }
}

} // verus!
