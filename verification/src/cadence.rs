//! How evenly a controller's reports actually arrive.
//!
//! A rate that is derived from two reports is a difference divided by the time between
//! them, so uneven spacing is a direct multiplier on its noise. Times are counted in
//! nanoseconds.
use vstd::prelude::*;

verus! {

/// The time between two reports on one link, summed up over a window.
#[derive(Debug, Clone, Copy, PartialEq, Eq, Structural)]
pub struct Cadence {
    /// When the last report came.
    pub last: Option<u64>,
    /// When the window began.
    pub window_began: u64,
    /// How many intervals the window holds.
    pub count: u32,
    /// Their sum.
    pub sum: u128,
    /// The shortest, or the largest number there is where there is none.
    pub min: u64,
    /// The longest.
    pub max: u64,
    /// The sum of the differences between one interval and the next. The mean cannot
    /// see it: a stream that alternates between two intervals has the same mean as a
    /// steady one.
    pub sum_steps: u128,
    /// The last interval.
    pub previous: Option<u64>,
}

/// What one window came to.
#[derive(Debug, Clone, Copy, PartialEq, Eq, Structural)]
pub struct CadenceSummary {
    /// How many intervals it held: at least two.
    pub samples: u32,
    pub sum: u128,
    pub min: u64,
    pub max: u64,
    /// The sum of the differences between one interval and the next; there are one
    /// fewer of them than intervals, not counting one that reaches into the window.
    pub sum_steps: u128,
}

/// How much later `to` is than `from`, or nothing where it is not later.
pub open spec fn since(from: u64, to: u64) -> u64 {
    if to >= from {
        (to - from) as u64
    } else {
        0
    }
}

/// How far two intervals are apart.
pub open spec fn apart(a: u64, b: u64) -> u64 {
    if a >= b {
        (a - b) as u64
    } else {
        (b - a) as u64
    }
}

impl Cadence {
    /// Whether the sums are those of as many intervals as were counted.
    pub open spec fn wf(self) -> bool {
        &&& self.sum <= self.count * u64::MAX
        &&& self.sum_steps <= self.count * u64::MAX
    }

    /// A window that began at `clock` and holds nothing.
    pub open spec fn fresh(clock: u64) -> Cadence {
        Cadence {
            last: None,
            window_began: clock,
            count: 0,
            sum: 0,
            min: u64::MAX,
            max: 0,
            sum_steps: 0,
            previous: None,
        }
    }

    /// The window with the report that came at `now`.
    pub open spec fn with_report(self, now: u64) -> Cadence {
        match self.last {
            None => Cadence { last: Some(now), ..self },
            Some(last) => {
                let gap = since(last, now);
                Cadence {
                    last: Some(now),
                    window_began: self.window_began,
                    count: (self.count + 1) as u32,
                    sum: (self.sum + gap) as u128,
                    min: if gap < self.min {
                        gap
                    } else {
                        self.min
                    },
                    max: if gap > self.max {
                        gap
                    } else {
                        self.max
                    },
                    sum_steps: match self.previous {
                        Some(p) => (self.sum_steps + apart(gap, p)) as u128,
                        None => self.sum_steps,
                    },
                    previous: Some(gap),
                }
            },
        }
    }

    /// Whether the window is over at `clock`: it has lasted long enough and holds
    /// enough to say anything.
    pub open spec fn over(self, clock: u64, window: u64) -> bool {
        since(self.window_began, clock) >= window && self.count >= 2
    }

    /// What the window came to.
    pub open spec fn summary(self) -> CadenceSummary {
        CadenceSummary {
            samples: self.count,
            sum: self.sum,
            min: self.min,
            max: self.max,
            sum_steps: self.sum_steps,
        }
    }

    /// What is said once a report came at `now`, and the window then. Where the window is over,
    /// the next begins at `clock`, with this report as the last.
    pub open spec fn ticked(self, now: u64, clock: u64, window: u64) -> (
        Option<CadenceSummary>,
        Cadence,
    ) {
        let c = self.with_report(now);
        if c.over(clock, window) {
            (Some(c.summary()), Cadence { last: Some(now), ..Cadence::fresh(clock) })
        } else {
            (None, c)
        }
    }

    /// Begin a window.
    pub fn new(clock: u64) -> (c: Cadence)
        ensures
            c == Cadence::fresh(clock),
            c.wf(),
    {
        Cadence {
            last: None,
            window_began: clock,
            count: 0,
            sum: 0,
            min: u64::MAX,
            max: 0,
            sum_steps: 0,
            previous: None,
        }
    }

    /// Record the report that came at `now`. Once for each `window`, by the `clock`,
    /// gives what the window came to and begins the next.
    pub fn tick(&mut self, now: u64, clock: u64, window: u64) -> (s: Option<CadenceSummary>)
        requires
            old(self).wf(),
            old(self).count < u32::MAX,
        ensures
            final(self).wf(),
            (s, *final(self)) == old(self).ticked(now, clock, window),
    {
        if let Some(last) = self.last {
            let gap: u64 = if now >= last {
                now - last
            } else {
                0
            };
            self.count = self.count + 1;
            self.sum = self.sum + gap as u128;
            if gap < self.min {
                self.min = gap;
            }
            if gap > self.max {
                self.max = gap;
            }
            if let Some(p) = self.previous {
                let step: u64 = if gap >= p {
                    gap - p
                } else {
                    p - gap
                };
                self.sum_steps = self.sum_steps + step as u128;
            }
            self.previous = Some(gap);
        }
        self.last = Some(now);
        let elapsed: u64 = if clock >= self.window_began {
            clock - self.window_began
        } else {
            0
        };
        if elapsed < window || self.count < 2 {
            return None;
        }
        let s = CadenceSummary {
            samples: self.count,
            sum: self.sum,
            min: self.min,
            max: self.max,
            sum_steps: self.sum_steps,
        };
        let mut next = Cadence::new(clock);
        next.last = self.last;
        *self = next;
        Some(s)
    }
}

/// The window once reports came at all of `times`.
pub open spec fn with_reports(c: Cadence, times: Seq<u64>) -> Cadence
    decreases times.len(),
{
    if times.len() == 0 {
        c
    } else {
        with_reports(c, times.drop_last()).with_report(times.last())
    }
}

/// Reports at equal distances.
pub open spec fn steady(start: u64, gap: u64, times: Seq<u64>) -> bool {
    forall|i: int| 0 <= i < times.len() ==> #[trigger] times[i] == start + i * gap
}

/// A steady stream has no jitter, and every interval of it is the same.
pub proof fn a_steady_stream_is_even(clock: u64, start: u64, gap: u64, times: Seq<u64>)
    requires
        steady(start, gap, times),
        2 <= times.len() <= u32::MAX,
    ensures
        ({
            let c = with_reports(Cadence::fresh(clock), times);
            &&& c.count == times.len() - 1
            &&& c.sum == (times.len() - 1) * gap
            &&& c.min == gap
            &&& c.max == gap
            &&& c.sum_steps == 0
        }),
{
    steady_window(clock, start, gap, times);
}

/// What a steady stream adds up to.
proof fn steady_window(clock: u64, start: u64, gap: u64, times: Seq<u64>)
    requires
        steady(start, gap, times),
        1 <= times.len() <= u32::MAX,
    ensures
        with_reports(Cadence::fresh(clock), times) == (Cadence {
            last: Some(times.last()),
            window_began: clock,
            count: (times.len() - 1) as u32,
            sum: ((times.len() - 1) * gap) as u128,
            min: if times.len() == 1 {
                u64::MAX
            } else {
                gap
            },
            max: if times.len() == 1 {
                0
            } else {
                gap
            },
            sum_steps: 0,
            previous: if times.len() == 1 {
                None
            } else {
                Some(gap)
            },
        }),
    decreases times.len(),
{
    let n = times.len() as int;
    let rest = times.drop_last();
    if n == 1 {
        assert(rest =~= seq![]);
        assert((n - 1) * gap == 0) by (nonlinear_arith)
            requires
                n == 1,
        ;
    } else {
        assert(steady(start, gap, rest)) by {
            assert forall|i: int| 0 <= i < rest.len() implies #[trigger] rest[i] == start + i
                * gap by {
                assert(times[i] == rest[i]);
            }
        }
        steady_window(clock, start, gap, rest);
        assert(times[n - 1] == start + (n - 1) * gap);
        assert(times[n - 2] == start + (n - 2) * gap);
        assert((n - 1) * gap == (n - 2) * gap + gap) by (nonlinear_arith);
        assert(rest.last() == times[n - 2]);
        assert(0 <= (n - 2) * gap && (n - 1) * gap <= u32::MAX * u64::MAX) by (nonlinear_arith)
            requires
                2 <= n <= u32::MAX,
                gap <= u64::MAX,
        ;
        assert(u32::MAX * u64::MAX <= u128::MAX) by (nonlinear_arith);
    }
}

/// The extremes are kept: no interval is shorter than the shortest or longer than the
/// longest, and each of the two is the length of one of them or was there before.
pub proof fn extremes_are_kept(c: Cadence, now: u64)
    requires
        c.last is Some,
    ensures
        ({
            let d = c.with_report(now);
            let gap = since(c.last->0, now);
            &&& d.min <= gap <= d.max
            &&& d.min <= c.min && c.max <= d.max
            &&& d.min == gap || d.min == c.min
            &&& d.max == gap || d.max == c.max
        }),
{
}

/// One report alone gives no interval, so no window that held none is ever summed up.
pub proof fn a_single_report_says_nothing(clock: u64, now: u64, later: u64, window: u64)
    ensures
        !Cadence::fresh(clock).with_report(now).over(later, window),
{
}

/// How much later one time is than another is what has to be added to get there; time never
/// runs backwards.
pub proof fn since_is_what_passed(from: u64, to: u64)
    ensures
        from <= to ==> from + since(from, to) == to,
        to <= from ==> since(from, to) == 0,
{
}

/// How far two intervals are apart is the same either way round, and is what the shorter one
/// lacks of the longer.
pub proof fn apart_is_a_distance(a: u64, b: u64, c: u64)
    ensures
        apart(a, b) == apart(b, a),
        a <= b ==> a + apart(a, b) == b,
        apart(a, b) == 0 <==> a == b,
        apart(a, c) <= apart(a, b) + apart(b, c),
{
}

/// Whether no report came before the one before it.
pub open spec fn in_order(times: Seq<u64>) -> bool {
    forall|i: int, j: int| 0 <= i <= j < times.len() ==> times[i] <= times[j]
}

/// How much the intervals between some reports change, all in all: of each two that follow
/// each other, how far the one is from the other.
pub open spec fn all_changes(times: Seq<u64>) -> int
    decreases times.len(),
{
    if times.len() < 3 {
        0
    } else {
        let n = times.len() as int;
        let change = (times[n - 1] - times[n - 2]) - (times[n - 2] - times[n - 3]);
        all_changes(times.drop_last()) + (if change < 0 {
            -change
        } else {
            change
        })
    }
}

/// What a window says of reports that came in order: one interval fewer than reports, which
/// add up to the time from the first to the last; none shorter than the shortest nor longer
/// than the longest, both of which occur; and all the changes from one interval to the next.
pub proof fn a_window_says_what_came(clock: u64, times: Seq<u64>)
    requires
        in_order(times),
        2 <= times.len() <= u32::MAX,
    ensures
        ({
            let c = with_reports(Cadence::fresh(clock), times);
            let n = times.len() as int;
            &&& c.window_began == clock
            &&& c.count == n - 1
            &&& c.sum == times[n - 1] - times[0]
            &&& c.sum_steps == all_changes(times)
            &&& forall|i: int|
                0 <= i < n - 1 ==> c.min <= #[trigger] times[i + 1] - times[i] <= c.max
            &&& exists|i: int| 0 <= i < n - 1 && c.min == #[trigger] times[i + 1] - times[i]
            &&& exists|i: int| 0 <= i < n - 1 && c.max == #[trigger] times[i + 1] - times[i]
        }),
{
    a_window_holds(clock, times);
}

/// What a window holds.
proof fn a_window_holds(clock: u64, times: Seq<u64>)
    requires
        in_order(times),
        1 <= times.len() <= u32::MAX,
    ensures
        ({
            let c = with_reports(Cadence::fresh(clock), times);
            let n = times.len() as int;
            &&& c.last == Some(times[n - 1])
            &&& c.window_began == clock
            &&& c.count == n - 1
            &&& c.sum == times[n - 1] - times[0]
            &&& c.sum_steps == all_changes(times)
            &&& 0 <= all_changes(times) <= (n - 1) * u64::MAX
            &&& forall|i: int|
                0 <= i < n - 1 ==> c.min <= #[trigger] times[i + 1] - times[i] <= c.max
            &&& if n == 1 {
                c.previous is None && c.min == u64::MAX && c.max == 0
            } else {
                &&& c.previous == Some((times[n - 1] - times[n - 2]) as u64)
                &&& exists|i: int| 0 <= i < n - 1 && c.min == #[trigger] times[i + 1] - times[i]
                &&& exists|i: int| 0 <= i < n - 1 && c.max == #[trigger] times[i + 1] - times[i]
            }
        }),
    decreases times.len(),
{
    let n = times.len() as int;
    let most = times.drop_last();
    if n == 1 {
        assert(most =~= seq![]);
        assert(with_reports(Cadence::fresh(clock), most) == Cadence::fresh(clock));
    } else {
        assert(in_order(most));
        a_window_holds(clock, most);
        let b = with_reports(Cadence::fresh(clock), most);
        let c = with_reports(Cadence::fresh(clock), times);
        let gap = times[n - 1] - times[n - 2];
        assert(most[n - 2] == times[n - 2]);
        assert(most[0] == times[0]);
        assert(c == b.with_report(times[n - 1]));
        assert(since(times[n - 2], times[n - 1]) == gap);
        assert((n - 1) * u64::MAX == (n - 2) * u64::MAX + u64::MAX) by (nonlinear_arith);
        assert((n - 1) * u64::MAX <= u128::MAX) by (nonlinear_arith)
            requires
                2 <= n <= u32::MAX,
        ;
        if n > 2 {
            assert(most[n - 3] == times[n - 3]);
        } else {
            assert(all_changes(most) == 0);
        }
        assert(times[(n - 2) + 1] - times[n - 2] == gap);
        assert forall|i: int| 0 <= i < n - 1 implies c.min <= #[trigger] times[i + 1] - times[i]
            <= c.max by {
            if i < n - 2 {
                assert(most[i + 1] - most[i] == times[i + 1] - times[i]);
            }
        }
        if c.min != gap {
            let i = choose|i: int| 0 <= i < n - 2 && b.min == #[trigger] most[i + 1] - most[i];
            assert(times[i + 1] - times[i] == c.min);
        }
        if c.max != gap {
            let i = choose|i: int| 0 <= i < n - 2 && b.max == #[trigger] most[i + 1] - most[i];
            assert(times[i + 1] - times[i] == c.max);
        }
    }
}

/// A window is summed up only once it has lasted as long as was asked for, and holds more
/// than one interval; and then it is.
pub proof fn a_window_lasts_as_long_as_asked(c: Cadence, clock: u64, window: u64)
    requires
        c.window_began <= clock,
    ensures
        c.over(clock, window) <==> c.window_began + window <= clock && c.count > 1,
{
}

/// What is said of a window is what came in it: how many intervals, how long they were
/// together, the shortest, the longest, and by how much they changed. The next window starts
/// with nothing but the last report, so that the interval to the next one is not lost.
pub proof fn a_window_is_summed_up(began: u64, times: Seq<u64>, clock: u64, window: u64)
    requires
        in_order(times),
        2 <= times.len() <= u32::MAX,
    ensures
        ({
            let n = times.len() as int;
            let c = with_reports(Cadence::fresh(began), times.drop_last());
            let (said, next) = c.ticked(times[n - 1], clock, window);
            &&& said is Some <==> since(began, clock) >= window && n > 2
            &&& said matches Some(s) ==> {
                &&& s.samples == n - 1
                &&& s.sum == times[n - 1] - times[0]
                &&& s.sum_steps == all_changes(times)
                &&& forall|i: int|
                    0 <= i < n - 1 ==> s.min <= #[trigger] times[i + 1] - times[i] <= s.max
                &&& exists|i: int| 0 <= i < n - 1 && s.min == #[trigger] times[i + 1] - times[i]
                &&& exists|i: int| 0 <= i < n - 1 && s.max == #[trigger] times[i + 1] - times[i]
                &&& next.window_began == clock && next.count == 0 && next.sum == 0
                    && next.sum_steps == 0
            }
            &&& next.last == Some(times[n - 1])
            &&& said is None ==> next == with_reports(Cadence::fresh(began), times)
        }),
{
    a_window_says_what_came(began, times);
    assert(times.last() == times[times.len() - 1]);
    a_window_holds(began, times);
}

} // verus!
