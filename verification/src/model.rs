use vstd::prelude::*;

verus! {

/// One contiguous voice-channel presence interval for a user.
/// It is created open (no `left_at`) when a join is observed, closed by
/// recording `left_at`, and immutable once closed.
#[derive(Clone, Copy, Debug, PartialEq, Eq)]
pub struct Session {
    pub user_id: u64,
    /// Seconds since the Unix epoch at which the user joined.
    pub joined_at: u64,
    /// Seconds since the Unix epoch at which the user left; absent while open.
    pub left_at: Option<u64>,
}

impl Session {
    /// A session is well formed when its end, if recorded, is not before its start.
    pub open spec fn wf(self) -> bool {
        self.left_at matches Some(l) ==> l >= self.joined_at
    }

    /// A session is open while it has no end timestamp.
    pub open spec fn is_open(self) -> bool {
        self.left_at is None
    }

    /// Length of a closed session, in seconds.
    pub open spec fn dur_spec(self) -> int
        recommends
            self.left_at is Some,
    {
        self.left_at->0 - self.joined_at
    }

    /// Seconds between joining and leaving; defined for closed sessions only.
    pub fn duration(&self) -> (d: u64)
        requires
            self.left_at is Some,
            self.wf(),
        ensures
            d == self.dur_spec(),
    {
        match self.left_at {
            Some(l) => l - self.joined_at,
            None => 0,
        }
    }

    /// Genkai points earned by a closed session under the scoring policy `P`.
    pub fn calc_point<P: Scoring>(&self) -> (r: u64)
        requires
            self.left_at is Some,
            self.wf(),
        ensures
            r == P::point_spec(self.joined_at, self.left_at->0),
    {
        match self.left_at {
            Some(l) => P::point(self.joined_at, l),
            None => 0,
        }
    }
}

/// An injected scoring policy: a pure function from a closed presence
/// interval to a non-negative point value. Any policy must award nothing
/// for an empty interval and must never award less for staying longer.
pub trait Scoring: Sized {
    /// The point value of the interval `[joined_at, left_at)`.
    spec fn point_spec(joined_at: u64, left_at: u64) -> u64;

    /// A session of zero duration earns zero points.
    proof fn zero_duration_zero(t: u64)
        ensures
            Self::point_spec(t, t) == 0,
    ;

    /// Staying longer never earns fewer points.
    proof fn monotonic(joined_at: u64, l1: u64, l2: u64)
        requires
            joined_at <= l1 <= l2,
        ensures
            Self::point_spec(joined_at, l1) <= Self::point_spec(joined_at, l2),
    ;

    /// Computes the policy's point value.
    fn point(joined_at: u64, left_at: u64) -> (r: u64)
        requires
            joined_at <= left_at,
        ensures
            r == Self::point_spec(joined_at, left_at),
    ;
}

/// The default policy: one point for every full hour of the session.
/// (Its penalty window is the whole day; sessions shorter than an hour
/// earn nothing.)
pub struct FullHourScoring;

impl Scoring for FullHourScoring {
    open spec fn point_spec(joined_at: u64, left_at: u64) -> u64 {
        if joined_at <= left_at {
            (((left_at - joined_at) / 3600) as u64)
        } else {
            0
        }
    }

    proof fn zero_duration_zero(t: u64) {
    }

    proof fn monotonic(joined_at: u64, l1: u64, l2: u64) {
        vstd::arithmetic::div_mod::lemma_div_is_ordered(
            l1 - joined_at,
            l2 - joined_at,
            3600,
        );
    }

    fn point(joined_at: u64, left_at: u64) -> (r: u64) {
        (left_at - joined_at) / 3600
    }
}

/// Per-user read model: cumulative points and total closed voice time,
/// recomputed on demand and never stored.
#[derive(Clone, Copy, Debug, PartialEq, Eq, Structural)]
pub struct UserStat {
    pub user_id: u64,
    /// Sum of the point values of the user's closed sessions.
    pub genkai_point: u64,
    /// Sum of the durations of the user's closed sessions, in seconds.
    pub total_vc_duration: u64,
}

/// Every session of the sequence is closed and well formed.
pub open spec fn all_closed_wf(s: Seq<Session>) -> bool {
    forall|i: int| 0 <= i < s.len() ==> s[i].left_at is Some && s[i].wf()
}

/// Exact sum of the point values of a sequence of closed sessions.
pub open spec fn points_sum<P: Scoring>(s: Seq<Session>) -> int
    decreases s.len(),
{
    if s.len() == 0 {
        0
    } else {
        points_sum::<P>(s.drop_last()) + P::point_spec(
            s.last().joined_at,
            s.last().left_at->0,
        )
    }
}

/// Exact sum of the durations of a sequence of closed sessions.
pub open spec fn duration_sum(s: Seq<Session>) -> int
    decreases s.len(),
{
    if s.len() == 0 {
        0
    } else {
        duration_sum(s.drop_last()) + s.last().dur_spec()
    }
}

/// `v` truncated to the range of `u64`.
pub open spec fn clamp_u64(v: int) -> u64 {
    if v > u64::MAX {
        u64::MAX
    } else if v < 0 {
        0
    } else {
        v as u64
    }
}

/// Sums of closed, well-formed sessions are never negative.
pub proof fn lemma_sums_nonneg<P: Scoring>(s: Seq<Session>)
    requires
        all_closed_wf(s),
    ensures
        points_sum::<P>(s) >= 0,
        duration_sum(s) >= 0,
    decreases s.len(),
{
    if s.len() > 0 {
        assert(all_closed_wf(s.drop_last()));
        lemma_sums_nonneg::<P>(s.drop_last());
    }
}

/// A session of zero duration earns zero points, whatever the policy.
pub proof fn lemma_zero_duration_point<P: Scoring>(s: Session)
    requires
        s.left_at == Some(s.joined_at),
    ensures
        P::point_spec(s.joined_at, s.left_at->0) == 0,
{
    P::zero_duration_zero(s.joined_at);
}

/// Aggregation over no sessions returns the additive identity.
pub proof fn lemma_aggregate_empty<P: Scoring>()
    ensures
        points_sum::<P>(Seq::<Session>::empty()) == 0,
        duration_sum(Seq::<Session>::empty()) == 0,
{
}

/// Sums points and durations over a user's closed sessions; each total
/// saturates at `u64::MAX` instead of overflowing.
pub fn aggregate<P: Scoring>(sessions: &Vec<Session>) -> (r: (u64, u64))
    requires
        all_closed_wf(sessions@),
    ensures
        r.0 == clamp_u64(points_sum::<P>(sessions@)),
        r.1 == clamp_u64(duration_sum(sessions@)),
{
    let mut points: u64 = 0;
    let mut dur: u64 = 0;
    let mut i: usize = 0;
    while i < sessions.len()
        invariant
            0 <= i <= sessions@.len(),
            all_closed_wf(sessions@),
            points == clamp_u64(points_sum::<P>(sessions@.subrange(0, i as int))),
            dur == clamp_u64(duration_sum(sessions@.subrange(0, i as int))),
        decreases sessions@.len() - i,
    {
        let s = sessions[i];
        let p = s.calc_point::<P>();
        let d = s.duration();
        proof {
            let pre = sessions@.subrange(0, i as int);
            let ext = sessions@.subrange(0, i + 1 as int);
            assert(ext.drop_last() =~= pre);
            assert(ext.last() == sessions@[i as int]);
            assert(all_closed_wf(pre));
            assert(all_closed_wf(ext));
            lemma_sums_nonneg::<P>(pre);
        }
        points = if points <= u64::MAX - p {
            points + p
        } else {
            u64::MAX
        };
        dur = if dur <= u64::MAX - d {
            dur + d
        } else {
            u64::MAX
        };
        i = i + 1;
    }
    proof {
        assert(sessions@.subrange(0, sessions@.len() as int) =~= sessions@);
    }
    (points, dur)
}

} // verus!
