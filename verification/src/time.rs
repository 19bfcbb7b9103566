//! Points in time and lengths of time.
//!
//! A `Timestamp` is a UTC date and time as `chrono` represents it: seconds
//! since the epoch, and nanoseconds that pass a second only inside a leap
//! second. The arithmetic on them is `chrono`'s.
use vstd::prelude::*;

verus! {

/// The first second that a timestamp can hold: the start of 262144 BCE.
pub const MIN_SECS: i64 = -8_334_601_228_800;

/// The last second that a timestamp can hold: the end of 262142 CE.
pub const MAX_SECS: i64 = 8_210_266_876_799;

/// The nanoseconds in a second.
pub const NANOS_PER_SEC: u32 = 1_000_000_000;

/// The seconds in a day.
pub const SECS_PER_DAY: i64 = 86_400;

/// The longest length of time that `chrono` holds: `i64::MAX` milliseconds.
pub const MAX_DELTA_SECS: i64 = 9_223_372_036_854_775;

/// The nanoseconds next to `MAX_DELTA_SECS`.
pub const MAX_DELTA_NANOS: u32 = 807_000_000;

/// A point in time.
pub struct Moment {
    /// Seconds since the epoch, leap seconds not counted.
    pub secs: int,
    /// Nanoseconds after that; a billion or more inside a leap second.
    pub nanos: int,
}

/// Whether a timestamp can hold the moment.
pub open spec fn representable(m: Moment) -> bool {
    &&& MIN_SECS <= m.secs <= MAX_SECS
    &&& 0 <= m.nanos < 2 * NANOS_PER_SEC
    &&& m.nanos >= NANOS_PER_SEC ==> m.secs % 60 == 59
}

/// Whether `a` is `b` or earlier.
pub open spec fn not_after(a: Moment, b: Moment) -> bool {
    a.secs < b.secs || (a.secs == b.secs && a.nanos <= b.nanos)
}

/// The second of the day.
pub open spec fn second_of_day(m: Moment) -> int {
    m.secs % (SECS_PER_DAY as int)
}

/// The nanoseconds from `earlier` to `later`, less than 0 if they are in the
/// other order. A leap second that one of the two stands in is counted if the
/// times of day put it between them.
pub open spec fn elapsed(later: Moment, earlier: Moment) -> int {
    let leap = if second_of_day(later) > second_of_day(earlier) && earlier.nanos
        >= NANOS_PER_SEC {
        1int
    } else if second_of_day(later) < second_of_day(earlier) && later.nanos >= NANOS_PER_SEC {
        -1int
    } else {
        0int
    };
    (later.secs - earlier.secs + leap) * NANOS_PER_SEC + (later.nanos - earlier.nanos)
}

/// The moment `delay` nanoseconds after `m`. To leave a leap second takes as
/// long as to leave the second before it.
pub open spec fn later_by(m: Moment, delay: nat) -> Moment {
    if m.nanos >= NANOS_PER_SEC && m.nanos + delay < 2 * NANOS_PER_SEC {
        Moment { secs: m.secs, nanos: m.nanos + delay }
    } else {
        let total = delay + if m.nanos >= NANOS_PER_SEC {
            m.nanos - NANOS_PER_SEC
        } else {
            m.nanos
        };
        Moment {
            secs: m.secs + total / (NANOS_PER_SEC as int),
            nanos: total % (NANOS_PER_SEC as int),
        }
    }
}

/// The whole days in a length of time, rounded toward 0.
pub open spec fn whole_days(nanos: int) -> int {
    let day = SECS_PER_DAY * NANOS_PER_SEC;
    if nanos >= 0 {
        nanos / day
    } else {
        -((-nanos) / day)
    }
}

/// A UTC date and time.
#[derive(Clone, Copy, Debug, PartialEq, Eq)]
pub struct Timestamp {
    secs: i64,
    nanos: u32,
}

impl View for Timestamp {
    type V = Moment;

    closed spec fn view(&self) -> Moment {
        Moment { secs: self.secs as int, nanos: self.nanos as int }
    }
}

/// `chrono::DateTime::from_timestamp`: there is a date and time for these
/// seconds and nanoseconds exactly if they are in range, and the nanoseconds
/// pass a second only in the last second of a minute.
#[verifier::external_body]
fn date_exists(secs: i64, nanos: u32) -> (r: bool)
    ensures
        r == representable(Moment { secs: secs as int, nanos: nanos as int }),
{
    chrono::DateTime::from_timestamp(secs, nanos).is_some()
}

/// `chrono::DateTime::signed_duration_since`: the time from `earlier` to
/// `later`, in seconds and nanoseconds of the same sign.
#[verifier::external_body]
fn signed_duration_since(later: &Timestamp, earlier: &Timestamp) -> (r: (i64, i32))
    requires
        representable(later@),
        representable(earlier@),
    ensures
        r.0 * NANOS_PER_SEC + r.1 == elapsed(later@, earlier@),
        -NANOS_PER_SEC < r.1 < NANOS_PER_SEC,
        r.0 > 0 ==> r.1 >= 0,
        r.0 < 0 ==> r.1 <= 0,
{
    let to = chrono::DateTime::from_timestamp(later.secs, later.nanos).unwrap();
    let from = chrono::DateTime::from_timestamp(earlier.secs, earlier.nanos).unwrap();
    let delta = to.signed_duration_since(from);
    (delta.num_seconds(), delta.subsec_nanos())
}

/// `chrono::DateTime::checked_add_signed`, for a length of time that is not
/// negative: the later date and time, or `None` if it is out of range.
#[verifier::external_body]
fn checked_add_signed(t: &Timestamp, secs: i64, nanos: u32) -> (r: Option<Timestamp>)
    requires
        representable(t@),
        0 <= secs <= MAX_DELTA_SECS,
        nanos < NANOS_PER_SEC,
        secs == MAX_DELTA_SECS ==> nanos <= MAX_DELTA_NANOS,
    ensures
        match r {
            Some(sum) => sum@ == later_by(t@, (secs * NANOS_PER_SEC + nanos) as nat)
                && representable(sum@),
            None => !representable(later_by(t@, (secs * NANOS_PER_SEC + nanos) as nat)),
        },
{
    let from = chrono::DateTime::from_timestamp(t.secs, t.nanos).unwrap();
    let delta = chrono::TimeDelta::new(secs, nanos).unwrap();
    from.checked_add_signed(delta).map(
        |d| Timestamp { secs: d.timestamp(), nanos: d.timestamp_subsec_nanos() },
    )
}

/// `chrono::TimeDelta::from_std`: the same length of time, or `None` if it is
/// longer than `chrono` holds.
#[verifier::external_body]
fn from_std(secs: u64, nanos: u32) -> (r: Option<(i64, u32)>)
    requires
        nanos < NANOS_PER_SEC,
    ensures
        match r {
            Some(delta) => delta.0 == secs && delta.1 == nanos && within_delta(
                secs as int,
                nanos as int,
            ),
            None => !within_delta(secs as int, nanos as int),
        },
{
    let duration = std::time::Duration::new(secs, nanos);
    chrono::TimeDelta::from_std(duration).ok().map(
        |d| (d.num_seconds(), d.subsec_nanos() as u32),
    )
}

/// Whether `chrono` holds this length of time.
pub open spec fn within_delta(secs: int, nanos: int) -> bool {
    secs < MAX_DELTA_SECS || (secs == MAX_DELTA_SECS && nanos <= MAX_DELTA_NANOS)
}

impl Timestamp {
    #[verifier::type_invariant]
    spec fn valid(self) -> bool {
        representable(self@)
    }

    /// The timestamp with these seconds since the epoch and nanoseconds, if
    /// there is one.
    pub fn new(secs: i64, nanos: u32) -> (t: Option<Timestamp>)
        ensures
            match t {
                Some(t) => t@ == (Moment { secs: secs as int, nanos: nanos as int })
                    && representable(t@),
                None => !representable(Moment { secs: secs as int, nanos: nanos as int }),
            },
    {
        if date_exists(secs, nanos) {
            Some(Timestamp { secs, nanos })
        } else {
            None
        }
    }

    /// The seconds since the epoch.
    pub fn secs(&self) -> (secs: i64)
        ensures
            secs == self@.secs,
    {
        self.secs
    }

    /// The nanoseconds after the seconds.
    pub fn nanos(&self) -> (nanos: u32)
        ensures
            nanos == self@.nanos,
    {
        self.nanos
    }

    /// Tells whether `self` is `other` or earlier.
    pub fn is_not_after(&self, other: &Timestamp) -> (r: bool)
        ensures
            r == not_after(self@, other@),
    {
        self.secs < other.secs || (self.secs == other.secs && self.nanos <= other.nanos)
    }

    /// The nanoseconds from `earlier` to `self`.
    pub fn nanos_since(&self, earlier: &Timestamp) -> (nanos: i128)
        ensures
            nanos == elapsed(self@, earlier@),
    {
        proof {
            use_type_invariant(self);
            use_type_invariant(earlier);
        }
        let (secs, nanos) = signed_duration_since(self, earlier);
        secs as i128 * NANOS_PER_SEC as i128 + nanos as i128
    }

    /// The whole days from `earlier` to `self`, rounded toward 0.
    pub fn days_since(&self, earlier: &Timestamp) -> (days: i64)
        ensures
            days == whole_days(elapsed(self@, earlier@)),
    {
        proof {
            use_type_invariant(self);
            use_type_invariant(earlier);
        }
        let (secs, nanos) = signed_duration_since(self, earlier);
        proof {
            lemma_days_of_seconds(secs as int, nanos as int);
        }
        if secs >= 0 {
            secs / SECS_PER_DAY
        } else {
            assert(secs > i64::MIN);
            -((-secs) / SECS_PER_DAY)
        }
    }

    /// Tells whether there is a timestamp `delay` after this one.
    pub fn reaches(&self, delay: &Interval) -> (r: bool)
        ensures
            r == representable(later_by(self@, delay.effective())),
    {
        proof {
            use_type_invariant(self);
            use_type_invariant(delay);
        }
        let (secs, nanos) = match from_std(delay.secs, delay.nanos) {
            Some(delta) => delta,
            None => (0i64, 0u32),
        };
        checked_add_signed(self, secs, nanos).is_some()
    }

    /// The timestamp `delay` after this one. A delay that is longer than
    /// `chrono` holds counts as none.
    pub fn after(&self, delay: &Interval) -> (t: Timestamp)
        requires
            representable(later_by(self@, delay.effective())),
        ensures
            t@ == later_by(self@, delay.effective()),
            representable(t@),
    {
        proof {
            use_type_invariant(self);
            use_type_invariant(delay);
        }
        let (secs, nanos) = match from_std(delay.secs, delay.nanos) {
            Some(delta) => delta,
            None => (0i64, 0u32),
        };
        match checked_add_signed(self, secs, nanos) {
            Some(t) => t,
            None => *self,
        }
    }
}

/// Whole days can be counted from whole seconds.
proof fn lemma_days_of_seconds(secs: int, nanos: int)
    requires
        -NANOS_PER_SEC < nanos < NANOS_PER_SEC,
        secs > 0 ==> nanos >= 0,
        secs < 0 ==> nanos <= 0,
    ensures
        whole_days(secs * NANOS_PER_SEC + nanos) == if secs >= 0 {
            secs / (SECS_PER_DAY as int)
        } else {
            -((-secs) / (SECS_PER_DAY as int))
        },
{
    let n = secs * NANOS_PER_SEC + nanos;
    let day = SECS_PER_DAY * NANOS_PER_SEC;
    assert(day == 86_400_000_000_000);
    if secs >= 0 && n >= 0 {
        assert(n / day == secs / 86_400);
    } else {
        assert((-n) / day == (-secs) / 86_400);
    }
}

/// A length of time, as a configuration gives it.
#[derive(Clone, Copy, Debug, PartialEq, Eq)]
pub struct Interval {
    secs: u64,
    nanos: u32,
}

impl View for Interval {
    type V = nat;

    /// Its nanoseconds.
    closed spec fn view(&self) -> nat {
        (self.secs * NANOS_PER_SEC + self.nanos) as nat
    }
}

impl Interval {
    #[verifier::type_invariant]
    spec fn valid(self) -> bool {
        self.nanos < NANOS_PER_SEC
    }

    /// The nanoseconds that the interval stands for when it is added to a
    /// timestamp: all of them, or none if `chrono` cannot hold that many.
    pub open spec fn effective(self) -> nat {
        if self@ <= MAX_DELTA_SECS * NANOS_PER_SEC + MAX_DELTA_NANOS {
            self@
        } else {
            0
        }
    }

    /// An interval of whole seconds.
    pub fn from_secs(secs: u64) -> (i: Interval)
        ensures
            i@ == secs * NANOS_PER_SEC,
    {
        Interval { secs, nanos: 0 }
    }

    /// An interval of seconds and, less than a second, nanoseconds.
    pub fn new(secs: u64, nanos: u32) -> (i: Option<Interval>)
        ensures
            match i {
                Some(i) => nanos < NANOS_PER_SEC && i@ == secs * NANOS_PER_SEC + nanos,
                None => nanos >= NANOS_PER_SEC,
            },
    {
        if nanos < NANOS_PER_SEC {
            Some(Interval { secs, nanos })
        } else {
            None
        }
    }

    /// The nanoseconds of the interval.
    pub fn as_nanos(&self) -> (nanos: u128)
        ensures
            nanos == self@,
            nanos < 18_446_744_073_709_551_616_000_000_000,
    {
        proof {
            use_type_invariant(self);
        }
        let whole: u128 = self.secs as u128 * NANOS_PER_SEC as u128;
        assert(whole == self.secs * 1_000_000_000);
        whole + self.nanos as u128
    }

    /// The whole seconds of the interval.
    pub fn as_secs(&self) -> (secs: u64)
        ensures
            secs == self@ / (NANOS_PER_SEC as nat),
    {
        proof {
            use_type_invariant(self);
        }
        self.secs
    }
}

/// Outside leap seconds, a moment that lies `delay` after another has passed
/// exactly when that much time has gone by.
pub proof fn delay_has_passed(from: Moment, delay: nat, now: Moment)
    requires
        0 <= from.nanos < NANOS_PER_SEC,
        0 <= now.nanos < NANOS_PER_SEC,
    ensures
        not_after(later_by(from, delay), now) <==> elapsed(now, from) >= delay,
        elapsed(later_by(from, delay), from) == delay,
{
}

/// Outside leap seconds, the time between two moments is the difference of their
/// nanoseconds since the epoch.
pub proof fn elapsed_time_in_numbers(later: Moment, earlier: Moment)
    requires
        0 <= later.nanos < 1_000_000_000,
        0 <= earlier.nanos < 1_000_000_000,
    ensures
        elapsed(later, earlier) == (later.secs * 1_000_000_000 + later.nanos) - (earlier.secs
            * 1_000_000_000 + earlier.nanos),
{
}

/// Outside leap seconds, a delay adds its nanoseconds.
pub proof fn delay_in_numbers(m: Moment, delay: nat)
    requires
        0 <= m.nanos < 1_000_000_000,
    ensures
        later_by(m, delay).secs * 1_000_000_000 + later_by(m, delay).nanos == m.secs
            * 1_000_000_000 + m.nanos + delay,
        0 <= later_by(m, delay).nanos < 1_000_000_000,
{
}

/// Outside leap seconds, moments are ordered by their nanoseconds since the
/// epoch.
pub proof fn order_in_numbers(a: Moment, b: Moment)
    requires
        0 <= a.nanos < 1_000_000_000,
        0 <= b.nanos < 1_000_000_000,
    ensures
        not_after(a, b) <==> a.secs * 1_000_000_000 + a.nanos <= b.secs * 1_000_000_000 + b.nanos,
{
}

/// A length of time has `d` whole days if it is `d` times 24 hours and less than
/// 24 hours more; if it is negative, the same holds of its opposite.
pub proof fn days_in_numbers(nanos: int)
    ensures
        nanos >= 0 ==> whole_days(nanos) * 86_400_000_000_000 <= nanos < (whole_days(nanos) + 1)
            * 86_400_000_000_000,
        nanos < 0 ==> whole_days(nanos) * 86_400_000_000_000 >= nanos > (whole_days(nanos) - 1)
            * 86_400_000_000_000,
        nanos >= 0 ==> whole_days(nanos) >= 0,
        nanos < 0 ==> whole_days(nanos) <= 0,
{
    let day = SECS_PER_DAY * NANOS_PER_SEC;
    assert(day == 86_400_000_000_000);
    let n = if nanos >= 0 {
        nanos
    } else {
        -nanos
    };
    vstd::arithmetic::div_mod::lemma_fundamental_div_mod(n, day);
    vstd::arithmetic::div_mod::lemma_mod_bound(n, day);
    vstd::arithmetic::div_mod::lemma_div_pos_is_pos(n, day);
    vstd::arithmetic::mul::lemma_mul_is_commutative(day, n / day);
}

/// An interval counts in full, up to `i64::MAX` milliseconds; a longer one does
/// not count at all.
pub proof fn interval_in_numbers(i: Interval)
    ensures
        i@ <= 9_223_372_036_854_775_807_000_000 ==> i.effective() == i@,
        i@ > 9_223_372_036_854_775_807_000_000 ==> i.effective() == 0,
{
}

/// A moment in a leap second is a second after the same moment of the second before
/// it. Compared with another time of day that comes after it, though, it is as far
/// away as that moment: the leap second is counted on the way.
pub proof fn leap_second_is_counted_by_the_time_of_day(
    secs: int,
    nanos: int,
    other: Moment,
)
    requires
        0 <= nanos < 1_000_000_000,
        0 <= other.nanos < 1_000_000_000,
    ensures
        ({
            let leap = Moment { secs, nanos: nanos + 1_000_000_000 };
            let plain = Moment { secs, nanos };
            let step = if other.secs % 86_400 > secs % 86_400 {
                0int
            } else {
                1_000_000_000int
            };
            &&& elapsed(leap, other) == elapsed(plain, other) + step
            &&& elapsed(other, leap) == elapsed(other, plain) - step
            &&& not_after(plain, leap) && !not_after(leap, plain)
        }),
{
}

/// A delay that begins in a leap second ends in it, if it is shorter than what is
/// left of it; otherwise it ends as if it had begun in the second before.
pub proof fn delay_leaves_a_leap_second(secs: int, nanos: int, delay: nat)
    requires
        0 <= nanos < 1_000_000_000,
    ensures
        ({
            let leap = Moment { secs, nanos: nanos + 1_000_000_000 };
            let plain = Moment { secs, nanos };
            &&& nanos + delay < 1_000_000_000 ==> later_by(leap, delay) == (Moment {
                secs,
                nanos: nanos + 1_000_000_000 + delay,
            })
            &&& nanos + delay >= 1_000_000_000 ==> later_by(leap, delay) == later_by(plain, delay)
        }),
{
}

} // verus!
