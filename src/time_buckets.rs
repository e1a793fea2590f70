use vstd::prelude::*;

verus! {

/// Length of one bucket of the history store, in seconds.
pub const BUCKET_SECONDS: i64 = 3600;

/// Length of a day, in seconds.
pub const DAY_SECONDS: i64 = 86400;

/// The top-of-hour second of the hour that holds `t`.
pub open spec fn bucket_time_of(t: int) -> int {
    t - t % 3600
}

/// Top of the hour of `t`, in UNIX seconds.
pub fn to_bucket_time(t: i64) -> (r: i64)
    requires
        t >= i64::MIN + BUCKET_SECONDS,
    ensures
        r == bucket_time_of(t as int),
{
    let m: i64 = t % BUCKET_SECONDS;
    let e: i64 = if m < 0 { m + BUCKET_SECONDS } else { m };
    assert(e == (t as int) % 3600);
    t - e
}

/// A bucket time is a multiple of an hour, at most one hour before the instant,
/// and not negative for an instant that is not.
pub proof fn lemma_bucket_time(t: int)
    ensures
        bucket_time_of(t) % 3600 == 0,
        0 <= t - bucket_time_of(t) < 3600,
        t >= 0 ==> bucket_time_of(t) >= 0,
{
}

/// The bucket times from the bucket of `from` up to the bucket of `to`, inclusive.
pub open spec fn bucket_times_spec(from: int, to: int) -> Seq<i64> {
    let first = bucket_time_of(from);
    let last = bucket_time_of(to);
    if last < first {
        Seq::empty()
    } else {
        Seq::new(((last - first) / 3600 + 1) as nat, |i: int| (first + 3600 * i) as i64)
    }
}

/// Every bucket time, hour by hour, that a range of instants touches.
pub fn bucket_times_between(from: i64, to: i64) -> (r: Vec<i64>)
    requires
        from >= i64::MIN + BUCKET_SECONDS,
        to >= i64::MIN + BUCKET_SECONDS,
    ensures
        r@ == bucket_times_spec(from as int, to as int),
{
    let first = to_bucket_time(from);
    let last = to_bucket_time(to);
    let mut r: Vec<i64> = Vec::new();
    if last < first {
        return r;
    }
    let n: i64 = ((last as i128 - first as i128) / 3600 + 1) as i64;
    let mut t: i64 = first;
    let mut i: i64 = 0;
    proof {
        lemma_bucket_time(from as int);
        lemma_bucket_time(to as int);
        assert((last - first) % 3600 == 0) by {
            vstd::arithmetic::div_mod::lemma_sub_mod_noop(last as int, first as int, 3600);
        }
    }
    while i < n
        invariant
            0 <= i <= n,
            n == (last - first) / 3600 + 1,
            (last - first) % 3600 == 0,
            first <= last,
            i < n ==> t == first + 3600 * i,
            r@ == Seq::new(i as nat, |k: int| (first + 3600 * k) as i64),
        decreases n - i,
    {
        assert(t <= last) by (nonlinear_arith)
            requires
                t == first + 3600 * i,
                i < n,
                n == (last - first) / 3600 + 1,
                (last - first) % 3600 == 0,
        {
        }
        r.push(t);
        assert(r@ =~= Seq::new((i + 1) as nat, |k: int| (first + 3600 * k) as i64));
        i = i + 1;
        if i < n {
            t = t + BUCKET_SECONDS;
        }
    }
    r
}

/// The instant at which a report stamped with a time of day was made.
///
/// The time of day is put on the UTC date of `now`; a candidate twelve hours or
/// more ahead of `now` moves one day back, one twelve hours or more behind moves
/// one day on.
pub open spec fn time_to_datetime_spec(now: int, seconds_of_day: int) -> int {
    let candidate = now - now % 86400 + seconds_of_day;
    let dt = now - candidate;
    if dt <= -43200 {
        candidate - 86400
    } else if dt >= 43200 {
        candidate + 86400
    } else {
        candidate
    }
}

/// Reconstructs the instant of a report from its time of day, against `now`.
pub fn time_to_datetime(now: i64, seconds_of_day: u32) -> (r: i64)
    requires
        seconds_of_day < 86400,
        i64::MIN + 2 * DAY_SECONDS <= now <= i64::MAX - 2 * DAY_SECONDS,
    ensures
        r == time_to_datetime_spec(now as int, seconds_of_day as int),
        now - 43200 <= r <= now + 43200,
{
    let m: i64 = now % DAY_SECONDS;
    let e: i64 = if m < 0 { m + DAY_SECONDS } else { m };
    assert(e == (now as int) % 86400);
    let candidate: i64 = now - e + seconds_of_day as i64;
    let dt: i64 = now - candidate;
    if dt <= -43200 {
        candidate - DAY_SECONDS
    } else if dt >= 43200 {
        candidate + DAY_SECONDS
    } else {
        candidate
    }
}

} // verus!
