//! The times that a segment took in past attempts.

use crate::fixed::Fixed;
use vstd::prelude::*;

verus! {

/// Which of the recorded times to use.
#[derive(Clone, Copy, Debug, PartialEq, Eq, Structural)]
pub enum TimingMethod {
    /// The time on the wall clock.
    RealTime,
    /// The time of the game, without loading.
    GameTime,
}

/// A span of time, in seconds.
#[derive(Clone, Copy, Debug, PartialEq, Eq, Structural)]
pub struct TimeSpan {
    pub seconds: Fixed,
}

impl TimeSpan {
    /// The span of `seconds` seconds.
    pub fn from_seconds(seconds: Fixed) -> (r: TimeSpan)
        ensures
            r.seconds == seconds,
    {
        TimeSpan { seconds }
    }

    /// The span in seconds.
    pub fn total_seconds(self) -> (r: Fixed)
        ensures
            r == self.seconds,
    {
        self.seconds
    }
}

/// The time of one attempt under each timing method, where it was recorded.
#[derive(Clone, Copy, Debug)]
pub struct Time {
    pub real_time: Option<TimeSpan>,
    pub game_time: Option<TimeSpan>,
}

impl Time {
    /// A time with nothing recorded.
    pub fn new() -> (r: Time)
        ensures
            r.real_time.is_none(),
            r.game_time.is_none(),
    {
        Time { real_time: None, game_time: None }
    }

    /// This time with the given real time.
    pub fn with_real_time(self, real_time: Option<TimeSpan>) -> (r: Time)
        ensures
            r.real_time == real_time,
            r.game_time == self.game_time,
    {
        Time { real_time, game_time: self.game_time }
    }

    /// This time with the given game time.
    pub fn with_game_time(self, game_time: Option<TimeSpan>) -> (r: Time)
        ensures
            r.real_time == self.real_time,
            r.game_time == game_time,
    {
        Time { real_time: self.real_time, game_time }
    }

    /// The time under `method`, where it was recorded.
    pub open spec fn under(self, method: TimingMethod) -> Option<TimeSpan> {
        match method {
            TimingMethod::RealTime => self.real_time,
            TimingMethod::GameTime => self.game_time,
        }
    }

    /// The time under `method`, where it was recorded.
    pub fn get(self, method: TimingMethod) -> (r: Option<TimeSpan>)
        ensures
            r == self.under(method),
    {
        match method {
            TimingMethod::RealTime => self.real_time,
            TimingMethod::GameTime => self.game_time,
        }
    }
}

/// The raw seconds of the times of `entries` that are recorded under
/// `method`, in the order of the entries.
pub open spec fn present_times(entries: Seq<(i32, Time)>, method: TimingMethod) -> Seq<int>
    decreases entries.len(),
{
    if entries.len() == 0 {
        Seq::empty()
    } else {
        let rest = present_times(entries.drop_last(), method);
        match entries.last().1.under(method) {
            Some(span) => rest.push(span.seconds.raw as int),
            None => rest,
        }
    }
}

/// No attempt occurs twice in `entries`.
pub open spec fn distinct_attempts(entries: Seq<(i32, Time)>) -> bool {
    forall|a: int, b: int|
        0 <= a < entries.len() && 0 <= b < entries.len() && a != b ==> (#[trigger] entries[a]).0 != (
        #[trigger] entries[b]).0
}

/// The times of a segment, by attempt, in the order in which the attempts
/// were first recorded.
#[derive(Debug)]
pub struct SegmentHistory {
    entries: Vec<(i32, Time)>,
}

impl View for SegmentHistory {
    type V = Seq<(i32, Time)>;

    closed spec fn view(&self) -> Seq<(i32, Time)> {
        self.entries@
    }
}

impl Clone for SegmentHistory {
    fn clone(&self) -> (r: SegmentHistory)
        ensures
            r@ == self@,
    {
        proof {
            use_type_invariant(self);
        }
        let n: usize = self.entries.len();
        let mut entries: Vec<(i32, Time)> = Vec::new();
        let mut j: usize = 0;
        while j < n
            invariant
                j <= n,
                n == self.entries@.len(),
                entries@ == self.entries@.take(j as int),
            decreases n - j,
        {
            entries.push(self.entries[j]);
            assert(entries@ =~= self.entries@.take(j as int + 1));
            j = j + 1;
        }
        assert(entries@ =~= self.entries@);
        SegmentHistory { entries }
    }
}

impl Default for SegmentHistory {
    fn default() -> (r: SegmentHistory)
        ensures
            r@.len() == 0,
    {
        SegmentHistory::new()
    }
}

impl SegmentHistory {
    /// No attempt occurs twice.
    #[verifier::type_invariant]
    spec fn distinct(&self) -> bool {
        distinct_attempts(self.entries@)
    }


    /// A history without attempts.
    pub fn new() -> (r: SegmentHistory)
        ensures
            r@.len() == 0,
    {
        SegmentHistory { entries: Vec::new() }
    }

    /// The number of attempts.
    pub fn len(&self) -> (n: usize)
        ensures
            n == self@.len(),
            distinct_attempts(self@),
    {
        proof {
            use_type_invariant(self);
        }
        self.entries.len()
    }

    /// The entry at the given place, where there is one.
    pub fn entry(&self, at: usize) -> (r: Option<(i32, Time)>)
        ensures
            at < self@.len() ==> r == Some(self@[at as int]),
            at >= self@.len() ==> r.is_none(),
    {
        if at < self.entries.len() {
            Some(self.entries[at])
        } else {
            None
        }
    }

    /// The place of `attempt`, or the number of attempts where it is not
    /// recorded.
    fn find(&self, attempt: i32) -> (at: usize)
        ensures
            at <= self@.len(),
            at < self@.len() ==> self@[at as int].0 == attempt,
            forall|j: int| 0 <= j < at ==> (#[trigger] self@[j]).0 != attempt,
    {
        let mut at: usize = 0;
        while at < self.entries.len()
            invariant
                at <= self.entries@.len(),
                forall|j: int| 0 <= j < at ==> (#[trigger] self.entries@[j]).0 != attempt,
            decreases self.entries@.len() - at,
        {
            if self.entries[at].0 == attempt {
                return at;
            }
            at = at + 1;
        }
        at
    }

    /// The time of `attempt`, where it is recorded.
    pub fn get(&self, attempt: i32) -> (r: Option<Time>)
        ensures
            match r {
                Some(time) => exists|j: int|
                    0 <= j < self@.len() && #[trigger] self@[j] == (attempt, time),
                None => forall|j: int| 0 <= j < self@.len() ==> (#[trigger] self@[j]).0 != attempt,
            },
    {
        let at: usize = self.find(attempt);
        if at < self.entries.len() {
            let found: (i32, Time) = self.entries[at];
            assert(self@[at as int] == (attempt, found.1));
            Some(found.1)
        } else {
            None
        }
    }

    /// Records `time` for `attempt`. A time already recorded for that
    /// attempt is replaced where it stands; a new attempt comes last.
    pub fn insert(&mut self, attempt: i32, time: Time)
        ensures
            distinct_attempts(old(self)@),
            distinct_attempts(final(self)@),
            (exists|j: int| 0 <= j < old(self)@.len() && (#[trigger] old(self)@[j]).0 == attempt)
                ==> exists|j: int|
                0 <= j < old(self)@.len() && (#[trigger] old(self)@[j]).0 == attempt && final(self)@
                    == old(self)@.update(j, (attempt, time)),
            (forall|j: int| 0 <= j < old(self)@.len() ==> (#[trigger] old(self)@[j]).0 != attempt)
                ==> final(self)@ == old(self)@.push((attempt, time)),
    {
        proof {
            use_type_invariant(&*self);
        }
        let at: usize = self.find(attempt);
        let n: usize = self.entries.len();
        let mut entries: Vec<(i32, Time)> = Vec::new();
        let mut j: usize = 0;
        while j < n
            invariant
                j <= n,
                n == self.entries@.len(),
                at <= n,
                entries@.len() == j,
                forall|a: int|
                    0 <= a < j ==> #[trigger] entries@[a] == (if a == at {
                        (attempt, time)
                    } else {
                        self.entries@[a]
                    }),
            decreases n - j,
        {
            if j == at {
                entries.push((attempt, time));
            } else {
                entries.push(self.entries[j]);
            }
            j = j + 1;
        }
        if at == n {
            entries.push((attempt, time));
            assert(entries@ =~= old(self)@.push((attempt, time)));
        } else {
            assert(entries@ =~= old(self)@.update(at as int, (attempt, time)));
        }
        self.entries = entries;
    }

    /// The seconds of the times recorded under `method`, in order.
    pub fn times(&self, method: TimingMethod) -> (r: Vec<Fixed>)
        ensures
            r@.len() == present_times(self@, method).len(),
            forall|j: int| 0 <= j < r@.len() ==> (#[trigger] r@[j]).raw == present_times(self@, method)[j],
    {
        let mut out: Vec<Fixed> = Vec::new();
        let mut at: usize = 0;
        while at < self.entries.len()
            invariant
                at <= self.entries@.len(),
                out@.len() == present_times(self.entries@.take(at as int), method).len(),
                forall|j: int|
                    0 <= j < out@.len() ==> (#[trigger] out@[j]).raw == present_times(
                        self.entries@.take(at as int),
                        method,
                    )[j],
            decreases self.entries@.len() - at,
        {
            proof {
                let next = self.entries@.take(at as int + 1);
                assert(next.drop_last() == self.entries@.take(at as int));
                assert(next.last() == self.entries@[at as int]);
            }
            match self.entries[at].1.get(method) {
                Some(span) => {
                    out.push(span.seconds);
                },
                None => {},
            }
            at = at + 1;
        }
        proof {
            assert(self.entries@.take(at as int) == self.entries@);
        }
        out
    }
}

} // verus!
